//! Turning a correlated `EXISTS` subquery into a keyed indicator.
//!
//! `EXISTS (SELECT 1 FROM r WHERE r.fk = l.id AND <local>)` is a semi-join on `l.id = r.fk`.
//! Splitting the subquery's WHERE into that one equality and the rest leaves a plain scan of `r`,
//! and the equality becomes the key under which an indicator operator counts matches.
//!
//! Every shape that this split cannot express is refused by name, because guessing which scope a
//! column belongs to is how a correlated reference silently binds to an inner column that happens
//! to share its bare name.

use vstd::prelude::*;

use crate::ast::{BinaryOperator, UnaryOperator};
use crate::error::{ErrorView, LimboError};
use crate::logical::{
    lemma_lexpr_views, lemma_named_plan_views, lemma_pair_views, lemma_plan_views, lemma_row_views,
    lexpr_views, named_plan_views, pair_views, plan_views, row_views, Column, ColumnInfo,
    ColumnInfoView, ColumnRefView, LogicalExpr, LogicalExprView, LogicalPlan, LogicalSchema,
    PlanView, Type,
};
use crate::plan::{column_position, copy_expr, copy_plan, same_expr, schema_of};
use crate::seqs::{first_where, lemma_first_where, lemma_is_first_where, lemma_none_where};
use crate::text::{begins_with, decimal, decimal_usize, join, joined, starts_with, texts};
use crate::value::{int_datum, Datum, Numeric, NumericView, Value};

verus! {

/// The name of an indicator column. Columns with this prefix are made by this rewrite alone.
pub open spec fn indicator_text(index: nat) -> Seq<char> {
    "__exists_"@ + decimal(index)
}

/// Names an indicator column.
pub fn indicator_name(index: usize) -> (r: String)
    ensures
        r@ == indicator_text(index as nat),
{
    let mut r = "__exists_".to_owned();
    let n = decimal_usize(index);
    r.append(n.as_str());
    r
}

/// One `EXISTS` reduced to a pair of keys and an uncorrelated plan.
#[derive(Debug, PartialEq, Eq)]
pub struct CorrelatedExists {
    /// Column of the outer plan that the subquery correlates to.
    pub outer_key: Column,
    /// Column of the subquery that the outer key is matched against.
    pub inner_key: Column,
    /// The subquery with the correlation removed.
    pub source: LogicalPlan,
}

#[verifier::ext_equal]
pub struct CorrelatedView {
    pub outer_key: ColumnRefView,
    pub inner_key: ColumnRefView,
    pub source: PlanView,
}

impl View for CorrelatedExists {
    type V = CorrelatedView;

    open spec fn view(&self) -> CorrelatedView {
        CorrelatedView {
            outer_key: self.outer_key@,
            inner_key: self.inner_key@,
            source: self.source.view(),
        }
    }
}

/// The scope to which a column belongs. One that resolves in both is in neither.
#[derive(Debug, PartialEq, Eq, Clone, Copy, Structural)]
pub enum Scope {
    Outer,
    Inner,
    Unknown,
}

pub open spec fn resolves(col: ColumnRefView, schema: Seq<ColumnInfoView>) -> bool {
    column_position(schema, col.name, col.table) is Some
}

pub open spec fn scope_in(
    col: ColumnRefView,
    outer: Seq<ColumnInfoView>,
    inner: Seq<ColumnInfoView>,
) -> Scope {
    match (resolves(col, outer), resolves(col, inner)) {
        (true, false) => Scope::Outer,
        (false, true) => Scope::Inner,
        _ => Scope::Unknown,
    }
}

fn scope_of(col: &Column, outer: &LogicalSchema, inner: &LogicalSchema) -> (r: Scope)
    ensures
        r == scope_in(col@, outer@, inner@),
{
    match (outer.find_column(col).is_some(), inner.find_column(col).is_some()) {
        (true, false) => Scope::Outer,
        (false, true) => Scope::Inner,
        _ => Scope::Unknown,
    }
}

/// The conjuncts of an expression, from left to right.
pub open spec fn conjuncts(e: LogicalExprView) -> Seq<LogicalExprView>
    decreases e,
{
    match e {
        LogicalExprView::BinaryExpr { left, op: BinaryOperator::And, right } => conjuncts(*left)
            + conjuncts(*right),
        _ => seq![e],
    }
}

/// The conjunction of two expressions.
pub open spec fn both(a: LogicalExprView, b: LogicalExprView) -> LogicalExprView {
    LogicalExprView::BinaryExpr { left: Box::new(a), op: BinaryOperator::And, right: Box::new(b) }
}

/// The conjunction of some expressions, nested to the left.
pub open spec fn conjoined(parts: Seq<LogicalExprView>) -> Option<LogicalExprView>
    decreases parts.len(),
{
    if parts.len() == 0 {
        None
    } else if parts.len() == 1 {
        Some(parts[0])
    } else {
        Some(both(conjoined(parts.drop_last())->Some_0, parts.last()))
    }
}

/// Splits an expression into its conjuncts.
pub fn split_conjuncts(e: &LogicalExpr) -> (r: Vec<LogicalExpr>)
    ensures
        lexpr_views(r@) == conjuncts(e.view()),
        r@.len() == conjuncts(e.view()).len(),
    decreases e,
{
    match e {
        LogicalExpr::BinaryExpr { left, op: BinaryOperator::And, right } => {
            let mut out = split_conjuncts(left);
            let mut tail = split_conjuncts(right);
            let ghost a = out@;
            let ghost b = tail@;
            out.append(&mut tail);
            proof {
                lemma_lexpr_views(a);
                lemma_lexpr_views(b);
                lemma_lexpr_views(out@);
                assert(lexpr_views(out@) =~= conjuncts(e.view()));
            }
            out
        },
        _ => {
            let mut out: Vec<LogicalExpr> = Vec::new();
            out.push(copy_expr(e));
            proof {
                lemma_lexpr_views(out@);
                assert(lexpr_views(out@) =~= seq![e.view()]);
            }
            out
        },
    }
}

/// Joins expressions into a conjunction.
pub fn conjoin(parts: Vec<LogicalExpr>) -> (r: Option<LogicalExpr>)
    ensures
        match r {
            Some(e) => conjoined(lexpr_views(parts@)) == Some(e.view()),
            None => conjoined(lexpr_views(parts@)) is None,
        },
{
    let ghost views = lexpr_views(parts@);
    proof {
        lemma_lexpr_views(parts@);
    }
    if parts.len() == 0 {
        return None;
    }
    let mut acc = copy_expr(&parts[0]);
    let mut i: usize = 1;
    assert(views.take(1).len() == 1);
    assert(views.take(1)[0] == views[0]);
    while i < parts.len()
        invariant
            1 <= i <= parts.len(),
            views == lexpr_views(parts@),
            views.len() == parts@.len(),
            conjoined(views.take(i as int)) == Some(acc.view()),
        decreases parts.len() - i,
    {
        proof {
            lemma_lexpr_views(parts@);
            assert(views.take(i + 1).drop_last() =~= views.take(i as int));
            assert(views.take(i + 1).last() == parts@[i as int].view());
        }
        acc = LogicalExpr::BinaryExpr {
            left: Box::new(acc),
            op: BinaryOperator::And,
            right: Box::new(copy_expr(&parts[i])),
        };
        i += 1;
    }
    assert(views.take(i as int) =~= views);
    Some(acc)
}

/// The columns in an expression, those of its subqueries among them: a nested subquery may itself
/// reach the outer query.
pub open spec fn columns_in(e: LogicalExprView) -> Seq<ColumnRefView>
    decreases e,
{
    match e {
        LogicalExprView::Column(c) => seq![c],
        LogicalExprView::Literal(_) => Seq::empty(),
        LogicalExprView::BinaryExpr { left, right, .. } => columns_in(*left) + columns_in(*right),
        LogicalExprView::UnaryExpr { expr, .. } => columns_in(*expr),
        LogicalExprView::AggregateFunction { args, filter, .. } => columns_in_list(args) + (
        match filter {
            Some(f) => columns_in(*f),
            None => Seq::empty(),
        }),
        LogicalExprView::ScalarFunction { args, .. } => columns_in_list(args),
        LogicalExprView::Alias { expr, .. } => columns_in(*expr),
        LogicalExprView::Case { base, when_then, else_expr } => (match base {
            Some(b) => columns_in(*b),
            None => Seq::empty(),
        }) + columns_in_pairs(when_then) + (match else_expr {
            Some(b) => columns_in(*b),
            None => Seq::empty(),
        }),
        LogicalExprView::InList { expr, list, .. } => columns_in(*expr) + columns_in_list(list),
        LogicalExprView::InSubquery { expr, subquery, .. } => columns_in(*expr) + columns_in_plan(
            *subquery,
        ),
        LogicalExprView::Exists { subquery, .. } => columns_in_plan(*subquery),
        LogicalExprView::ScalarSubquery(p) => columns_in_plan(*p),
        LogicalExprView::IsNull { expr, .. } => columns_in(*expr),
        LogicalExprView::Between { expr, low, high, .. } => columns_in(*expr) + columns_in(*low)
            + columns_in(*high),
        LogicalExprView::Like { expr, pattern, .. } => columns_in(*expr) + columns_in(*pattern),
        LogicalExprView::Cast { expr, .. } => columns_in(*expr),
    }
}

pub open spec fn columns_in_list(list: Seq<LogicalExprView>) -> Seq<ColumnRefView>
    decreases list,
{
    if list.len() == 0 {
        Seq::empty()
    } else {
        columns_in_list(list.drop_last()) + columns_in(list.last())
    }
}

pub open spec fn columns_in_pairs(list: Seq<(LogicalExprView, LogicalExprView)>) -> Seq<
    ColumnRefView,
>
    decreases list,
{
    if list.len() == 0 {
        Seq::empty()
    } else {
        columns_in_pairs(list.drop_last()) + columns_in(list.last().0) + columns_in(list.last().1)
    }
}

pub open spec fn columns_in_rows(list: Seq<Seq<LogicalExprView>>) -> Seq<ColumnRefView>
    decreases list,
{
    if list.len() == 0 {
        Seq::empty()
    } else {
        columns_in_rows(list.drop_last()) + columns_in_list(list.last())
    }
}

pub open spec fn columns_in_plans(list: Seq<PlanView>) -> Seq<ColumnRefView>
    decreases list,
{
    if list.len() == 0 {
        Seq::empty()
    } else {
        columns_in_plans(list.drop_last()) + columns_in_plan(list.last())
    }
}

pub open spec fn columns_in_named(list: Seq<(Seq<char>, PlanView)>) -> Seq<ColumnRefView>
    decreases list,
{
    if list.len() == 0 {
        Seq::empty()
    } else {
        columns_in_named(list.drop_last()) + columns_in_plan(list.last().1)
    }
}

/// The columns in the expressions of a plan.
pub open spec fn columns_in_plan(p: PlanView) -> Seq<ColumnRefView>
    decreases p,
{
    match p {
        PlanView::Projection { input, exprs, .. } => columns_in_plan(*input) + columns_in_list(
            exprs,
        ),
        PlanView::Filter { input, predicate } => columns_in_plan(*input) + columns_in(predicate),
        PlanView::Aggregate { input, group_expr, aggr_expr, .. } => columns_in_plan(*input)
            + columns_in_list(group_expr) + columns_in_list(aggr_expr),
        PlanView::Join { left, right, on, filter, .. } => columns_in_plan(*left) + columns_in_plan(
            *right,
        ) + columns_in_pairs(on) + (match filter {
            Some(f) => columns_in(*f),
            None => Seq::empty(),
        }),
        PlanView::Sort { input, exprs } => columns_in_plan(*input) + columns_in_list(exprs),
        PlanView::Limit { input, .. } => columns_in_plan(*input),
        PlanView::TableScan { .. } => Seq::empty(),
        PlanView::Union { inputs, .. } => columns_in_plans(inputs),
        PlanView::Distinct { input } => columns_in_plan(*input),
        PlanView::EmptyRelation { .. } => Seq::empty(),
        PlanView::Values { rows, .. } => columns_in_rows(rows),
        PlanView::WithCTE { ctes, body } => columns_in_named(ctes) + columns_in_plan(*body),
        PlanView::CTERef { .. } => Seq::empty(),
        PlanView::RecursiveCTE { base_case, recursive_step, .. } => columns_in_plan(*base_case)
            + columns_in_plan(*recursive_step),
        PlanView::RecursiveCTERef { .. } => Seq::empty(),
    }
}

/// What a list of column references holds.
pub open spec fn column_refs(list: Seq<Column>) -> Seq<ColumnRefView> {
    list.map_values(|c: Column| c@)
}

/// Appends the columns of an expression to a list.
fn collect_columns(e: &LogicalExpr, out: &mut Vec<Column>)
    ensures
        column_refs(final(out)@) == column_refs(old(out)@) + columns_in(e.view()),
    decreases e,
{
    let ghost before = column_refs(out@);
    match e {
        LogicalExpr::Column(c) => {
            let ghost listed = out@;
            out.push(c.clone());
            assert(column_refs(out@) =~= column_refs(listed) + seq![c@]);
        },
        LogicalExpr::Literal(_) => {},
        LogicalExpr::BinaryExpr { left, op: _, right } => {
            collect_columns(left, out);
            collect_columns(right, out);
        },
        LogicalExpr::UnaryExpr { op: _, expr } => {
            collect_columns(expr, out);
        },
        LogicalExpr::AggregateFunction { fun: _, args, distinct: _, filter } => {
            collect_list(args, out);
            collect_opt(filter, out);
        },
        LogicalExpr::ScalarFunction { name: _, args } => {
            collect_list(args, out);
        },
        LogicalExpr::Alias { expr, alias: _ } => {
            collect_columns(expr, out);
        },
        LogicalExpr::Case { base, when_then, else_expr } => {
            collect_opt(base, out);
            collect_pairs(when_then, out);
            collect_opt(else_expr, out);
        },
        LogicalExpr::InList { expr, list, negated: _ } => {
            collect_columns(expr, out);
            collect_list(list, out);
        },
        LogicalExpr::InSubquery { expr, subquery, negated: _ } => {
            collect_columns(expr, out);
            collect_plan(subquery, out);
        },
        LogicalExpr::Exists { subquery, negated: _ } => {
            collect_plan(subquery, out);
        },
        LogicalExpr::ScalarSubquery(p) => {
            collect_plan(p, out);
        },
        LogicalExpr::IsNull { expr, negated: _ } => {
            collect_columns(expr, out);
        },
        LogicalExpr::Between { expr, low, high, negated: _ } => {
            collect_columns(expr, out);
            collect_columns(low, out);
            collect_columns(high, out);
        },
        LogicalExpr::Like { expr, pattern, escape: _, negated: _ } => {
            collect_columns(expr, out);
            collect_columns(pattern, out);
        },
        LogicalExpr::Cast { expr, cast_type: _ } => {
            collect_columns(expr, out);
        },
    }
    assert(column_refs(out@) =~= before + columns_in(e.view()));
}

fn collect_opt(e: &Option<Box<LogicalExpr>>, out: &mut Vec<Column>)
    ensures
        column_refs(final(out)@) == column_refs(old(out)@) + (match *e {
            Some(b) => columns_in(b.view()),
            None => Seq::empty(),
        }),
    decreases e,
{
    let ghost before = column_refs(out@);
    match e {
        Some(b) => {
            collect_columns(b, out);
        },
        None => {
            assert(before + Seq::<ColumnRefView>::empty() =~= before);
        },
    }
}

fn collect_list(list: &Vec<LogicalExpr>, out: &mut Vec<Column>)
    ensures
        column_refs(final(out)@) == column_refs(old(out)@) + columns_in_list(lexpr_views(list@)),
    decreases list,
{
    let ghost before = column_refs(out@);
    let ghost views = lexpr_views(list@);
    let mut i: usize = 0;
    proof {
        lemma_lexpr_views(list@);
        assert(views.take(0) =~= Seq::<LogicalExprView>::empty());
        assert(before + Seq::<ColumnRefView>::empty() =~= before);
    }
    while i < list.len()
        invariant
            i <= list.len(),
            views == lexpr_views(list@),
            views.len() == list@.len(),
            column_refs(out@) == before + columns_in_list(views.take(i as int)),
        decreases list.len() - i,
    {
        proof {
            lemma_lexpr_views(list@);
            assert(decreases_to!(list => list@[i as int]));
            assert(views.take(i + 1).drop_last() =~= views.take(i as int));
            assert(views.take(i + 1).last() == list@[i as int].view());
        }
        let ghost now = column_refs(out@);
        collect_columns(&list[i], out);
        assert(column_refs(out@) =~= before + columns_in_list(views.take(i + 1)));
        i += 1;
    }
    assert(views.take(i as int) =~= views);
}

fn collect_pairs(list: &Vec<(LogicalExpr, LogicalExpr)>, out: &mut Vec<Column>)
    ensures
        column_refs(final(out)@) == column_refs(old(out)@) + columns_in_pairs(pair_views(list@)),
    decreases list,
{
    let ghost before = column_refs(out@);
    let ghost views = pair_views(list@);
    let mut i: usize = 0;
    proof {
        lemma_pair_views(list@);
        assert(views.take(0) =~= Seq::<(LogicalExprView, LogicalExprView)>::empty());
        assert(before + Seq::<ColumnRefView>::empty() =~= before);
    }
    while i < list.len()
        invariant
            i <= list.len(),
            views == pair_views(list@),
            views.len() == list@.len(),
            column_refs(out@) == before + columns_in_pairs(views.take(i as int)),
        decreases list.len() - i,
    {
        proof {
            lemma_pair_views(list@);
            assert(decreases_to!(list => list@[i as int]));
            assert(decreases_to!(list@[i as int] => list@[i as int].0));
            assert(decreases_to!(list@[i as int] => list@[i as int].1));
            assert(views.take(i + 1).drop_last() =~= views.take(i as int));
            assert(views.take(i + 1).last() == views[i as int]);
        }
        collect_columns(&list[i].0, out);
        collect_columns(&list[i].1, out);
        assert(column_refs(out@) =~= before + columns_in_pairs(views.take(i + 1)));
        i += 1;
    }
    assert(views.take(i as int) =~= views);
}

fn collect_rows(list: &Vec<Vec<LogicalExpr>>, out: &mut Vec<Column>)
    ensures
        column_refs(final(out)@) == column_refs(old(out)@) + columns_in_rows(row_views(list@)),
    decreases list,
{
    let ghost before = column_refs(out@);
    let ghost views = row_views(list@);
    let mut i: usize = 0;
    proof {
        lemma_row_views(list@);
        assert(views.take(0) =~= Seq::<Seq<LogicalExprView>>::empty());
        assert(before + Seq::<ColumnRefView>::empty() =~= before);
    }
    while i < list.len()
        invariant
            i <= list.len(),
            views == row_views(list@),
            views.len() == list@.len(),
            column_refs(out@) == before + columns_in_rows(views.take(i as int)),
        decreases list.len() - i,
    {
        proof {
            lemma_row_views(list@);
            assert(decreases_to!(list => list@[i as int]));
            assert(views.take(i + 1).drop_last() =~= views.take(i as int));
            assert(views.take(i + 1).last() == views[i as int]);
        }
        collect_list(&list[i], out);
        assert(column_refs(out@) =~= before + columns_in_rows(views.take(i + 1)));
        i += 1;
    }
    assert(views.take(i as int) =~= views);
}

fn collect_plans(list: &Vec<LogicalPlan>, out: &mut Vec<Column>)
    ensures
        column_refs(final(out)@) == column_refs(old(out)@) + columns_in_plans(plan_views(list@)),
    decreases list,
{
    let ghost before = column_refs(out@);
    let ghost views = plan_views(list@);
    let mut i: usize = 0;
    proof {
        lemma_plan_views(list@);
        assert(views.take(0) =~= Seq::<PlanView>::empty());
        assert(before + Seq::<ColumnRefView>::empty() =~= before);
    }
    while i < list.len()
        invariant
            i <= list.len(),
            views == plan_views(list@),
            views.len() == list@.len(),
            column_refs(out@) == before + columns_in_plans(views.take(i as int)),
        decreases list.len() - i,
    {
        proof {
            lemma_plan_views(list@);
            assert(decreases_to!(list => list@[i as int]));
            assert(views.take(i + 1).drop_last() =~= views.take(i as int));
            assert(views.take(i + 1).last() == views[i as int]);
        }
        collect_plan(&list[i], out);
        assert(column_refs(out@) =~= before + columns_in_plans(views.take(i + 1)));
        i += 1;
    }
    assert(views.take(i as int) =~= views);
}

fn collect_named(list: &Vec<(String, LogicalPlan)>, out: &mut Vec<Column>)
    ensures
        column_refs(final(out)@) == column_refs(old(out)@) + columns_in_named(
            named_plan_views(list@),
        ),
    decreases list,
{
    let ghost before = column_refs(out@);
    let ghost views = named_plan_views(list@);
    let mut i: usize = 0;
    proof {
        lemma_named_plan_views(list@);
        assert(views.take(0) =~= Seq::<(Seq<char>, PlanView)>::empty());
        assert(before + Seq::<ColumnRefView>::empty() =~= before);
    }
    while i < list.len()
        invariant
            i <= list.len(),
            views == named_plan_views(list@),
            views.len() == list@.len(),
            column_refs(out@) == before + columns_in_named(views.take(i as int)),
        decreases list.len() - i,
    {
        proof {
            lemma_named_plan_views(list@);
            assert(decreases_to!(list => list@[i as int]));
            assert(decreases_to!(list@[i as int] => list@[i as int].1));
            assert(views.take(i + 1).drop_last() =~= views.take(i as int));
            assert(views.take(i + 1).last() == views[i as int]);
        }
        collect_plan(&list[i].1, out);
        assert(column_refs(out@) =~= before + columns_in_named(views.take(i + 1)));
        i += 1;
    }
    assert(views.take(i as int) =~= views);
}

/// Appends the columns of a plan's expressions to a list.
fn collect_plan(p: &LogicalPlan, out: &mut Vec<Column>)
    ensures
        column_refs(final(out)@) == column_refs(old(out)@) + columns_in_plan(p.view()),
    decreases p,
{
    let ghost before = column_refs(out@);
    match p {
        LogicalPlan::Projection { input, exprs, schema: _ } => {
            collect_plan(input, out);
            collect_list(exprs, out);
        },
        LogicalPlan::Filter { input, predicate } => {
            collect_plan(input, out);
            collect_columns(predicate, out);
        },
        LogicalPlan::Aggregate { input, group_expr, aggr_expr, schema: _ } => {
            collect_plan(input, out);
            collect_list(group_expr, out);
            collect_list(aggr_expr, out);
        },
        LogicalPlan::Join { left, right, join_type: _, on, filter, schema: _ } => {
            collect_plan(left, out);
            collect_plan(right, out);
            collect_pairs(on, out);
            collect_opt(filter, out);
        },
        LogicalPlan::Sort { input, exprs } => {
            collect_plan(input, out);
            collect_list(exprs, out);
        },
        LogicalPlan::Limit { input, fetch: _ } => {
            collect_plan(input, out);
        },
        LogicalPlan::TableScan { .. } => {},
        LogicalPlan::Union { inputs, all: _, schema: _ } => {
            collect_plans(inputs, out);
        },
        LogicalPlan::Distinct { input } => {
            collect_plan(input, out);
        },
        LogicalPlan::EmptyRelation { .. } => {},
        LogicalPlan::Values { rows, schema: _ } => {
            collect_rows(rows, out);
        },
        LogicalPlan::WithCTE { ctes, body } => {
            collect_named(ctes, out);
            collect_plan(body, out);
        },
        LogicalPlan::CTERef { .. } => {},
        LogicalPlan::RecursiveCTE { base_case, recursive_step, .. } => {
            collect_plan(base_case, out);
            collect_plan(recursive_step, out);
        },
        LogicalPlan::RecursiveCTERef { .. } => {},
    }
    assert(column_refs(out@) =~= before + columns_in_plan(p.view()));
}

/// A column as it is written, with its qualifier where it has one.
pub open spec fn written(c: ColumnRefView) -> Seq<char> {
    match c.table {
        Some(t) => t + "."@ + c.name,
        None => c.name,
    }
}

/// The columns of a list that belong to the outer scope, as they are written.
pub open spec fn outer_columns(
    list: Seq<ColumnRefView>,
    outer: Seq<ColumnInfoView>,
    inner: Seq<ColumnInfoView>,
) -> Seq<Seq<char>>
    decreases list.len(),
{
    if list.len() == 0 {
        Seq::empty()
    } else {
        let front = outer_columns(list.drop_last(), outer, inner);
        if scope_in(list.last(), outer, inner) is Outer {
            front.push(written(list.last()))
        } else {
            front
        }
    }
}

/// Every column that an expression mentions and that belongs to the outer scope.
fn outer_refs(e: &LogicalExpr, outer: &LogicalSchema, inner: &LogicalSchema) -> (r: Vec<String>)
    ensures
        texts(r@) == outer_columns(columns_in(e.view()), outer@, inner@),
{
    let mut columns: Vec<Column> = Vec::new();
    assert(column_refs(columns@) =~= Seq::<ColumnRefView>::empty());
    collect_columns(e, &mut columns);
    let ghost refs = columns_in(e.view());
    assert(column_refs(columns@) =~= refs);
    let mut found: Vec<String> = Vec::new();
    let mut i: usize = 0;
    assert(refs.take(0) =~= Seq::<ColumnRefView>::empty());
    assert(texts(found@) =~= Seq::<Seq<char>>::empty());
    while i < columns.len()
        invariant
            i <= columns.len(),
            refs == column_refs(columns@),
            texts(found@) == outer_columns(refs.take(i as int), outer@, inner@),
        decreases columns.len() - i,
    {
        let c = &columns[i];
        let ghost before = found@;
        proof {
            assert(refs.take(i + 1).drop_last() =~= refs.take(i as int));
            assert(refs.take(i + 1).last() == c@);
        }
        if scope_of(c, outer, inner) == Scope::Outer {
            let text = match &c.table {
                Some(t) => {
                    let mut w = t.clone();
                    w.append(".");
                    w.append(c.name.as_str());
                    w
                },
                None => c.name.clone(),
            };
            assert(text@ == written(c@));
            found.push(text);
            assert(texts(found@) =~= texts(before).push(written(c@)));
        }
        i += 1;
    }
    assert(refs.take(i as int) =~= refs);
    found
}

/// What a conjunct of the subquery's WHERE is to the correlation.
#[verifier::ext_equal]
pub enum Conjunct {
    /// It does not tie the subquery to the outer query.
    Local,
    /// An equality of an outer and an inner column.
    Key { outer: ColumnRefView, inner: ColumnRefView },
    /// A comparison of an outer and an inner column that is no equality.
    Inequality,
}

pub open spec fn conjunct_kind(
    e: LogicalExprView,
    outer: Seq<ColumnInfoView>,
    inner: Seq<ColumnInfoView>,
) -> Conjunct {
    match e {
        LogicalExprView::BinaryExpr { left, op, right } => match (*left, *right) {
            (LogicalExprView::Column(a), LogicalExprView::Column(b)) => match (
                scope_in(a, outer, inner),
                scope_in(b, outer, inner),
            ) {
                (Scope::Outer, Scope::Inner) => if op == BinaryOperator::Equals {
                    Conjunct::Key { outer: a, inner: b }
                } else {
                    Conjunct::Inequality
                },
                (Scope::Inner, Scope::Outer) => if op == BinaryOperator::Equals {
                    Conjunct::Key { outer: b, inner: a }
                } else {
                    Conjunct::Inequality
                },
                _ => Conjunct::Local,
            },
            _ => Conjunct::Local,
        },
        _ => Conjunct::Local,
    }
}

/// The pairs of keys among some conjuncts.
pub open spec fn keys_among(
    list: Seq<LogicalExprView>,
    outer: Seq<ColumnInfoView>,
    inner: Seq<ColumnInfoView>,
) -> Seq<(ColumnRefView, ColumnRefView)>
    decreases list.len(),
{
    if list.len() == 0 {
        Seq::empty()
    } else {
        let front = keys_among(list.drop_last(), outer, inner);
        match conjunct_kind(list.last(), outer, inner) {
            Conjunct::Key { outer: o, inner: i } => front.push((o, i)),
            _ => front,
        }
    }
}

/// The local ones among some conjuncts.
pub open spec fn locals_among(
    list: Seq<LogicalExprView>,
    outer: Seq<ColumnInfoView>,
    inner: Seq<ColumnInfoView>,
) -> Seq<LogicalExprView>
    decreases list.len(),
{
    if list.len() == 0 {
        Seq::empty()
    } else {
        let front = locals_among(list.drop_last(), outer, inner);
        if conjunct_kind(list.last(), outer, inner) is Local {
            front.push(list.last())
        } else {
            front
        }
    }
}

pub open spec fn has_inequality(
    list: Seq<LogicalExprView>,
    outer: Seq<ColumnInfoView>,
    inner: Seq<ColumnInfoView>,
) -> bool {
    exists|i: int|
        0 <= i < list.len() && conjunct_kind(#[trigger] list[i], outer, inner) is Inequality
}

/// A conjunct that still reaches the outer query.
pub open spec fn reaches_out(
    outer: Seq<ColumnInfoView>,
    inner: Seq<ColumnInfoView>,
) -> spec_fn(LogicalExprView) -> bool {
    |e: LogicalExprView| outer_columns(columns_in(e), outer, inner).len() > 0
}

/// Peels the projection that stands over an EXISTS subquery.
pub open spec fn body_of(plan: PlanView) -> PlanView {
    match plan {
        PlanView::Projection { input, .. } => *input,
        _ => plan,
    }
}

pub open spec fn unsupported_message(what: Seq<char>) -> Seq<char> {
    "EXISTS subquery in a materialized view is not supported: "@ + what
}

/// The analysis of an EXISTS subquery against the schema of the outer plan: its one key and the
/// rest, or what keeps it from being maintained.
pub open spec fn analysis(subquery: PlanView, outer: Seq<ColumnInfoView>) -> Result<
    CorrelatedView,
    Seq<char>,
> {
    match body_of(subquery) {
        PlanView::Filter { input, predicate } => {
            let inner = schema_of(*input);
            let parts = conjuncts(predicate);
            let keys = keys_among(parts, outer, inner);
            let locals = locals_among(parts, outer, inner);
            let bad = first_where(locals, reaches_out(outer, inner));
            if has_inequality(parts, outer, inner) {
                Err(
                    "its correlation to the outer query is not an equality; only equality correlation can be maintained incrementally"@,
                )
            } else if keys.len() == 0 {
                Err(
                    "it is not correlated to the outer query; an uncorrelated EXISTS has no key to maintain matches under"@,
                )
            } else if keys.len() > 1 {
                Err("it correlates to the outer query on more than one equality"@)
            } else if bad is Some {
                Err(
                    "it refers to the outer query outside its correlation ("@ + joined(
                        outer_columns(columns_in(locals[bad->Some_0]), outer, inner),
                        ", "@,
                    ) + "); only a single equality may reach the outer query"@,
                )
            } else {
                Ok(
                    CorrelatedView {
                        outer_key: keys[0].0,
                        inner_key: keys[0].1,
                        source: match conjoined(locals) {
                            Some(rest) => PlanView::Filter { input, predicate: rest },
                            None => *input,
                        },
                    },
                )
            }
        },
        _ => Err("it has no WHERE clause correlating it to the outer query"@),
    }
}

fn unsupported(what: &str) -> (r: LimboError)
    ensures
        r@ == ErrorView::ParseError(unsupported_message(what@)),
{
    let mut m = "EXISTS subquery in a materialized view is not supported: ".to_owned();
    m.append(what);
    LimboError::ParseError(m)
}

fn subquery_body(plan: &LogicalPlan) -> (r: &LogicalPlan)
    ensures
        r.view() == body_of(plan.view()),
{
    match plan {
        LogicalPlan::Projection { input, .. } => input,
        _ => plan,
    }
}

/// Tells what a conjunct is to the correlation.
fn classify_conjunct(e: &LogicalExpr, outer: &LogicalSchema, inner: &LogicalSchema) -> (r: (
    bool,
    Option<(Column, Column)>,
))
    ensures
        match conjunct_kind(e.view(), outer@, inner@) {
            Conjunct::Local => !r.0 && r.1 is None,
            Conjunct::Key { outer: o, inner: i } => r.1 matches Some(pair) && !r.0 && pair.0@ == o
                && pair.1@ == i,
            Conjunct::Inequality => r.0 && r.1 is None,
        },
{
    proof {
        reveal_with_fuel(LogicalExpr::view, 2);
    }
    if let LogicalExpr::BinaryExpr { left, op, right } = e {
        if let LogicalExpr::Column(a) = &**left {
            if let LogicalExpr::Column(b) = &**right {
                let sa = scope_of(a, outer, inner);
                let sb = scope_of(b, outer, inner);
                let crosses = (sa == Scope::Outer && sb == Scope::Inner) || (sa == Scope::Inner
                    && sb == Scope::Outer);
                if crosses {
                    if *op != BinaryOperator::Equals {
                        return (true, None);
                    }
                    if sa == Scope::Outer {
                        return (false, Some((a.clone(), b.clone())));
                    }
                    return (false, Some((b.clone(), a.clone())));
                }
            }
        }
    }
    (false, None)
}

pub open spec fn key_views(list: Seq<(Column, Column)>) -> Seq<(ColumnRefView, ColumnRefView)> {
    list.map_values(|p: (Column, Column)| (p.0@, p.1@))
}

/// Reduces an EXISTS subquery to its key and an uncorrelated plan.
pub fn analyze(subquery: &LogicalPlan, outer: &LogicalSchema) -> (r: Result<
    CorrelatedExists,
    LimboError,
>)
    ensures
        match analysis(subquery.view(), outer@) {
            Ok(c) => r matches Ok(x) && x@ == c,
            Err(m) => r matches Err(e) && e@ == ErrorView::ParseError(unsupported_message(m)),
        },
{
    let body = subquery_body(subquery);
    if let LogicalPlan::Filter { input, predicate } = body {
        let inner = input.schema();
        let parts = split_conjuncts(predicate);
        let ghost views = conjuncts(predicate.view());
        let ghost o = outer@;
        let ghost n = inner@;
        let mut keys: Vec<(Column, Column)> = Vec::new();
        let mut local: Vec<LogicalExpr> = Vec::new();
        let mut i: usize = 0;
        proof {
            lemma_lexpr_views(local@);
            assert(views.take(0) =~= Seq::<LogicalExprView>::empty());
            assert(key_views(keys@) =~= Seq::<(ColumnRefView, ColumnRefView)>::empty());
            assert(lexpr_views(local@) =~= Seq::<LogicalExprView>::empty());
        }
        while i < parts.len()
            invariant
                i <= parts.len(),
                views == lexpr_views(parts@),
                views.len() == parts@.len(),
                o == outer@,
                n == inner@,
                key_views(keys@) == keys_among(views.take(i as int), o, n),
                lexpr_views(local@) == locals_among(views.take(i as int), o, n),
                forall|j: int|
                    0 <= j < i ==> !(conjunct_kind(#[trigger] views[j], o, n) is Inequality),
                // What the whole analysis comes to, should an inequality turn up.
                body.view() == body_of(subquery.view()),
                *body == (LogicalPlan::Filter { input: *input, predicate: *predicate }),
                views == conjuncts(predicate.view()),
                n == schema_of(input.view()),
            decreases parts.len() - i,
        {
            let ghost before_k = keys@;
            let ghost before_l = local@;
            proof {
                lemma_lexpr_views(parts@);
                lemma_lexpr_views(local@);
                assert(views.take(i + 1).drop_last() =~= views.take(i as int));
                assert(views.take(i + 1).last() == views[i as int]);
            }
            let (unequal, key) = classify_conjunct(&parts[i], outer, inner);
            if unequal {
                assert(conjunct_kind(views[i as int], o, n) is Inequality);
                return Err(
                    unsupported(
                        "its correlation to the outer query is not an equality; only equality correlation can be maintained incrementally",
                    ),
                );
            }
            match key {
                Some(pair) => {
                    keys.push(pair);
                    assert(key_views(keys@) =~= key_views(before_k).push((pair.0@, pair.1@)));
                },
                None => {
                    local.push(copy_expr(&parts[i]));
                    proof {
                        lemma_lexpr_views(local@);
                        assert(lexpr_views(local@) =~= lexpr_views(before_l).push(
                            views[i as int],
                        ));
                    }
                },
            }
            i += 1;
        }
        assert(views.take(i as int) =~= views);
        assert(!has_inequality(views, o, n));
        assert(keys@.len() == keys_among(views, o, n).len()) by {
            assert(key_views(keys@).len() == keys@.len());
        }
        if keys.len() == 0 {
            return Err(
                unsupported(
                    "it is not correlated to the outer query; an uncorrelated EXISTS has no key to maintain matches under",
                ),
            );
        }
        if keys.len() > 1 {
            return Err(
                unsupported("it correlates to the outer query on more than one equality"),
            );
        }
        let ghost rest = locals_among(views, o, n);
        let ghost bad = reaches_out(o, n);
        proof {
            lemma_lexpr_views(local@);
        }
        let mut k: usize = 0;
        while k < local.len()
            invariant
                k <= local.len(),
                rest == lexpr_views(local@),
                rest.len() == local@.len(),
                rest == locals_among(views, o, n),
                o == outer@,
                n == inner@,
                bad == reaches_out(o, n),
                forall|j: int| 0 <= j < k ==> !bad(#[trigger] rest[j]),
                body.view() == body_of(subquery.view()),
                *body == (LogicalPlan::Filter { input: *input, predicate: *predicate }),
                views == conjuncts(predicate.view()),
                n == schema_of(input.view()),
                !has_inequality(views, o, n),
                keys_among(views, o, n).len() == 1,
            decreases local.len() - k,
        {
            proof {
                lemma_lexpr_views(local@);
            }
            let refs = outer_refs(&local[k], outer, inner);
            assert(refs@.len() == texts(refs@).len());
            if refs.len() > 0 {
                proof {
                    lemma_is_first_where(rest, bad, k as int);
                }
                let mut m = "it refers to the outer query outside its correlation (".to_owned();
                let list = join(&refs, ", ");
                m.append(list.as_str());
                m.append("); only a single equality may reach the outer query");
                return Err(unsupported(m.as_str()));
            }
            k += 1;
        }
        proof {
            lemma_none_where(rest, bad);
        }
        let outer_key = keys[0].0.clone();
        let inner_key = keys[0].1.clone();
        assert(key_views(keys@)[0] == (outer_key@, inner_key@));
        let source = match conjoin(local) {
            Some(predicate) => LogicalPlan::Filter {
                input: Box::new(copy_plan(input)),
                predicate,
            },
            None => copy_plan(input),
        };
        return Ok(CorrelatedExists { outer_key, inner_key, source });
    }
    Err(unsupported("it has no WHERE clause correlating it to the outer query"))
}

/// A test of an indicator column against a constant.
pub open spec fn indicator_test(name: Seq<char>, value: int) -> LogicalExprView {
    LogicalExprView::BinaryExpr {
        left: Box::new(LogicalExprView::Column(ColumnRefView { name, table: None })),
        op: BinaryOperator::Equals,
        right: Box::new(LogicalExprView::Literal(int_datum(value))),
    }
}

/// An expression with an EXISTS replaced by a test of its indicator.
pub open spec fn substituted(
    e: LogicalExprView,
    index: nat,
    target: LogicalExprView,
) -> LogicalExprView
    decreases e,
{
    if e == target {
        indicator_test(indicator_text(index), 1)
    } else {
        match e {
            LogicalExprView::BinaryExpr { left, op, right } => LogicalExprView::BinaryExpr {
                left: Box::new(substituted(*left, index, target)),
                op,
                right: Box::new(substituted(*right, index, target)),
            },
            LogicalExprView::UnaryExpr { op, expr } => LogicalExprView::UnaryExpr {
                op,
                expr: Box::new(substituted(*expr, index, target)),
            },
            _ => e,
        }
    }
}

/// Replaces an EXISTS by a test of its indicator column.
pub fn substitute(e: &LogicalExpr, index: usize, target: &LogicalExpr) -> (r: LogicalExpr)
    ensures
        r.view() == substituted(e.view(), index as nat, target.view()),
    decreases e,
{
    proof {
        reveal_with_fuel(LogicalExpr::view, 2);
    }
    if same_expr(e, target) {
        return LogicalExpr::BinaryExpr {
            left: Box::new(
                LogicalExpr::Column(Column { name: indicator_name(index), table: None }),
            ),
            op: BinaryOperator::Equals,
            right: Box::new(LogicalExpr::Literal(Value::from_i64(1))),
        };
    }
    match e {
        LogicalExpr::BinaryExpr { left, op, right } => LogicalExpr::BinaryExpr {
            left: Box::new(substitute(left, index, target)),
            op: *op,
            right: Box::new(substitute(right, index, target)),
        },
        LogicalExpr::UnaryExpr { op, expr } => LogicalExpr::UnaryExpr {
            op: *op,
            expr: Box::new(substitute(expr, index, target)),
        },
        _ => copy_expr(e),
    }
}

pub open spec fn is_indicator_column(e: LogicalExprView) -> bool {
    e matches LogicalExprView::Column(c) && begins_with(c.name, "__exists_"@)
}

pub open spec fn is_literal_one(e: LogicalExprView) -> bool {
    e == LogicalExprView::Literal(int_datum(1))
}

/// The test that an indicator is 1.
pub open spec fn is_indicator_test(e: LogicalExprView) -> bool {
    e matches LogicalExprView::BinaryExpr { left, op, right } && op == BinaryOperator::Equals
        && is_indicator_column(*left) && is_literal_one(*right)
}

/// An expression with `NOT (indicator = 1)` written as `indicator = 0`.
pub open spec fn folded(e: LogicalExprView) -> LogicalExprView
    decreases e,
{
    match e {
        LogicalExprView::UnaryExpr { op: UnaryOperator::Not, expr } => if is_indicator_test(*expr) {
            LogicalExprView::BinaryExpr {
                left: expr->BinaryExpr_left,
                op: BinaryOperator::Equals,
                right: Box::new(LogicalExprView::Literal(int_datum(0))),
            }
        } else {
            LogicalExprView::UnaryExpr { op: UnaryOperator::Not, expr: Box::new(folded(*expr)) }
        },
        LogicalExprView::BinaryExpr { left, op, right } => LogicalExprView::BinaryExpr {
            left: Box::new(folded(*left)),
            op,
            right: Box::new(folded(*right)),
        },
        _ => e,
    }
}

fn is_indicator(e: &LogicalExpr) -> (r: bool)
    ensures
        r == is_indicator_column(e.view()),
{
    match e {
        LogicalExpr::Column(c) => starts_with(c.name.as_str(), "__exists_"),
        _ => false,
    }
}

fn is_one(e: &LogicalExpr) -> (r: bool)
    ensures
        r == is_literal_one(e.view()),
{
    match e {
        LogicalExpr::Literal(Value::Numeric(Numeric::Integer(i))) => *i == 1,
        _ => false,
    }
}

/// Writes `NOT (indicator = 1)` as `indicator = 0`.
///
/// An indicator is always 0 or 1 and never NULL, so its negation is a change of constant. That
/// keeps `NOT` out of the filter predicates, where a boolean negation would contradict SQL's
/// three-valued comparisons.
pub fn fold_indicator_negations(e: &LogicalExpr) -> (r: LogicalExpr)
    ensures
        r.view() == folded(e.view()),
    decreases e,
{
    proof {
        reveal_with_fuel(LogicalExpr::view, 3);
    }
    match e {
        LogicalExpr::UnaryExpr { op: UnaryOperator::Not, expr } => {
            if let LogicalExpr::BinaryExpr { left, op: BinaryOperator::Equals, right } = &**expr {
                if is_indicator(left) && is_one(right) {
                    return LogicalExpr::BinaryExpr {
                        left: Box::new(copy_expr(left)),
                        op: BinaryOperator::Equals,
                        right: Box::new(LogicalExpr::Literal(Value::from_i64(0))),
                    };
                }
            }
            LogicalExpr::UnaryExpr {
                op: UnaryOperator::Not,
                expr: Box::new(fold_indicator_negations(expr)),
            }
        },
        LogicalExpr::BinaryExpr { left, op, right } => LogicalExpr::BinaryExpr {
            left: Box::new(fold_indicator_negations(left)),
            op: *op,
            right: Box::new(fold_indicator_negations(right)),
        },
        _ => copy_expr(e),
    }
}

/// The first EXISTS of an expression, from left to right.
pub open spec fn first_exists_in(e: LogicalExprView) -> Option<LogicalExprView>
    decreases e,
{
    match e {
        LogicalExprView::Exists { .. } => Some(e),
        LogicalExprView::BinaryExpr { left, right, .. } => match first_exists_in(*left) {
            Some(x) => Some(x),
            None => first_exists_in(*right),
        },
        LogicalExprView::UnaryExpr { expr, .. } => first_exists_in(*expr),
        _ => None,
    }
}

/// The first EXISTS of an expression, from left to right.
pub fn first_exists(e: &LogicalExpr) -> (r: Option<&LogicalExpr>)
    ensures
        match r {
            Some(x) => first_exists_in(e.view()) == Some(x.view()),
            None => first_exists_in(e.view()) is None,
        },
    decreases e,
{
    match e {
        LogicalExpr::Exists { .. } => Some(e),
        LogicalExpr::BinaryExpr { left, op: _, right } => match first_exists(left) {
            Some(x) => Some(x),
            None => first_exists(right),
        },
        LogicalExpr::UnaryExpr { op: _, expr } => first_exists(expr),
        _ => None,
    }
}

/// A column whose name is kept for indicators.
pub open spec fn reserved() -> spec_fn(ColumnInfoView) -> bool {
    |c: ColumnInfoView| begins_with(c.name, "__exists_"@)
}

pub open spec fn reserved_message(name: Seq<char>) -> Seq<char> {
    "column '"@ + name
        + "' uses the reserved prefix '__exists_', which a materialized view with an EXISTS subquery needs for its indicator columns"@
}

/// Rejects a source column that could not be told from an indicator.
pub fn reject_reserved_names(schema: &LogicalSchema) -> (r: Result<(), LimboError>)
    ensures
        match first_where(schema@, reserved()) {
            None => r is Ok,
            Some(i) => r matches Err(e) && e@ == ErrorView::ParseError(
                reserved_message(schema@[i].name),
            ),
        },
{
    let mut i: usize = 0;
    while i < schema.columns.len()
        invariant
            i <= schema.columns.len(),
            forall|j: int| 0 <= j < i ==> !reserved()(#[trigger] schema@[j]),
        decreases schema.columns.len() - i,
    {
        let c = &schema.columns[i];
        assert(schema@[i as int] == c@);
        if starts_with(c.name.as_str(), "__exists_") {
            proof {
                lemma_is_first_where(schema@, reserved(), i as int);
            }
            let mut m = "column '".to_owned();
            m.append(c.name.as_str());
            m.append(
                "' uses the reserved prefix '__exists_', which a materialized view with an EXISTS subquery needs for its indicator columns",
            );
            return Err(LimboError::ParseError(m));
        }
        i += 1;
    }
    proof {
        lemma_none_where(schema@, reserved());
    }
    Ok(())
}

/// The schema of a plan with its indicator column appended.
pub fn schema_with_indicator(base: &LogicalSchema, index: usize) -> (r: LogicalSchema)
    ensures
        r@ == base@.push(
            ColumnInfoView {
                name: indicator_text(index as nat),
                ty: Type::Integer,
                database: None,
                table: None,
                table_alias: None,
            },
        ),
{
    let mut schema = base.clone();
    let ghost before = schema.columns@;
    let info = ColumnInfo {
        name: indicator_name(index),
        ty: Type::Integer,
        database: None,
        table: None,
        table_alias: None,
    };
    let ghost view = info@;
    schema.columns.push(info);
    assert(schema@ =~= base@.push(view));
    schema
}

/// Splitting a conjunction that was joined from conjuncts gives the conjuncts back.
pub proof fn law_splitting_undoes_joining(parts: Seq<LogicalExprView>)
    requires
        parts.len() > 0,
        forall|i: int| 0 <= i < parts.len() ==> conjuncts(#[trigger] parts[i]) == seq![parts[i]],
    ensures
        conjuncts(conjoined(parts)->Some_0) == parts,
    decreases parts.len(),
{
    if parts.len() == 1 {
        assert(conjuncts(parts[0]) == seq![parts[0]]);
        assert(seq![parts[0]] =~= parts);
    } else {
        let front = parts.drop_last();
        assert forall|i: int| 0 <= i < front.len() implies conjuncts(#[trigger] front[i])
            == seq![front[i]] by {
            assert(front[i] == parts[i]);
        }
        law_splitting_undoes_joining(front);
        let e = conjoined(parts)->Some_0;
        assert(conjuncts(parts[parts.len() - 1]) == seq![parts.last()]);
        assert(e == both(conjoined(front)->Some_0, parts.last()));
        assert(conjuncts(e) =~= front + seq![parts.last()]);
        assert(front + seq![parts.last()] =~= parts);
    }
}

/// How many EXISTS stand where a substitution looks for them.
pub open spec fn exists_count(e: LogicalExprView) -> nat
    decreases e,
{
    match e {
        LogicalExprView::Exists { .. } => 1,
        LogicalExprView::BinaryExpr { left, right, .. } => exists_count(*left) + exists_count(
            *right,
        ),
        LogicalExprView::UnaryExpr { expr, .. } => exists_count(*expr),
        _ => 0,
    }
}

/// Substituting the first EXISTS leaves fewer of them, so that doing it again and again ends with
/// none.
pub proof fn law_substitution_makes_progress(e: LogicalExprView, index: nat)
    requires
        first_exists_in(e) is Some,
    ensures
        exists_count(substituted(e, index, first_exists_in(e)->Some_0)) < exists_count(e),
    decreases e,
{
    let target = first_exists_in(e)->Some_0;
    lemma_first_exists_is_exists(e);
    match e {
        LogicalExprView::BinaryExpr { left, op, right } => {
            lemma_substitution_never_adds(*left, index, target);
            lemma_substitution_never_adds(*right, index, target);
            if first_exists_in(*left) is Some {
                law_substitution_makes_progress(*left, index);
            } else {
                law_substitution_makes_progress(*right, index);
            }
        },
        LogicalExprView::UnaryExpr { op, expr } => {
            law_substitution_makes_progress(*expr, index);
        },
        _ => {
            lemma_test_has_no_exists(index);
        },
    }
}

proof fn lemma_test_has_no_exists(index: nat)
    ensures
        exists_count(indicator_test(indicator_text(index), 1)) == 0,
{
    let t = indicator_test(indicator_text(index), 1);
    assert(exists_count(*t->BinaryExpr_left) == 0);
    assert(exists_count(*t->BinaryExpr_right) == 0);
}

proof fn lemma_first_exists_is_exists(e: LogicalExprView)
    ensures
        first_exists_in(e) is Some ==> first_exists_in(e)->Some_0 is Exists,
    decreases e,
{
    match e {
        LogicalExprView::BinaryExpr { left, op, right } => {
            lemma_first_exists_is_exists(*left);
            lemma_first_exists_is_exists(*right);
        },
        LogicalExprView::UnaryExpr { op, expr } => {
            lemma_first_exists_is_exists(*expr);
        },
        _ => {},
    }
}

proof fn lemma_substitution_never_adds(e: LogicalExprView, index: nat, target: LogicalExprView)
    requires
        target is Exists,
    ensures
        exists_count(substituted(e, index, target)) <= exists_count(e),
    decreases e,
{
    lemma_test_has_no_exists(index);
    match e {
        LogicalExprView::BinaryExpr { left, op, right } => {
            lemma_substitution_never_adds(*left, index, target);
            lemma_substitution_never_adds(*right, index, target);
        },
        LogicalExprView::UnaryExpr { op, expr } => {
            lemma_substitution_never_adds(*expr, index, target);
        },
        _ => {},
    }
}

/// How expressions are read: what those have for values that folding leaves as they are, and what the
/// operators make of values.
pub struct Reading {
    pub leaf: spec_fn(LogicalExprView) -> Datum,
    pub unary: spec_fn(UnaryOperator, Datum) -> Datum,
    pub binary: spec_fn(BinaryOperator, Datum, Datum) -> Datum,
}

/// The value of an expression.
pub open spec fn meaning(e: LogicalExprView, r: Reading) -> Datum
    decreases e,
{
    match e {
        LogicalExprView::UnaryExpr { op, expr } => (r.unary)(op, meaning(*expr, r)),
        LogicalExprView::BinaryExpr { left, op, right } => (r.binary)(
            op,
            meaning(*left, r),
            meaning(*right, r),
        ),
        _ => (r.leaf)(e),
    }
}

/// A truth value as SQL has it.
pub open spec fn bit(b: bool) -> Datum {
    int_datum(
        if b {
            1
        } else {
            0
        },
    )
}

/// Whether expressions are read as in SQL, as far as indicators are concerned: an indicator is 0 or 1,
/// never NULL, a literal is its value, equality tells integers apart, and NOT exchanges 0 and 1.
pub open spec fn reads_as_sql(r: Reading) -> bool {
    &&& forall|column: LogicalExprView| #[trigger]
        is_indicator_column(column) ==> (r.leaf)(column) == bit(false) || (r.leaf)(column) == bit(
            true,
        )
    &&& forall|b: bool| (r.leaf)(LogicalExprView::Literal(#[trigger] bit(b))) == bit(b)
    &&& forall|a: bool, b: bool|
        (r.binary)(BinaryOperator::Equals, #[trigger] bit(a), #[trigger] bit(b)) == bit(a == b)
    &&& forall|b: bool| (r.unary)(UnaryOperator::Not, #[trigger] bit(b)) == bit(!b)
}

/// Folding the negations of indicators does not change the value of any expression.
pub proof fn law_folding_keeps_the_meaning(e: LogicalExprView, r: Reading)
    requires
        reads_as_sql(r),
    ensures
        meaning(folded(e), r) == meaning(e, r),
    decreases e,
{
    match e {
        LogicalExprView::UnaryExpr { op, expr } => {
            if op == UnaryOperator::Not {
                if is_indicator_test(*expr) {
                    let column = *expr->BinaryExpr_left;
                    let one = *expr->BinaryExpr_right;
                    assert(is_indicator_column(column));
                    assert(one == LogicalExprView::Literal(bit(true)));
                    assert(meaning(column, r) == (r.leaf)(column));
                    assert(meaning(one, r) == bit(true));
                    let zero = LogicalExprView::Literal(bit(false));
                    assert(meaning(zero, r) == bit(false));
                    let b = (r.leaf)(column) == bit(true);
                    assert((r.leaf)(column) == bit(b));
                    assert(meaning(*expr, r) == bit(b == true));
                    assert(meaning(e, r) == bit(!b));
                    assert(folded(e) == LogicalExprView::BinaryExpr {
                        left: Box::new(column),
                        op: BinaryOperator::Equals,
                        right: Box::new(zero),
                    });
                    assert(meaning(folded(e), r) == bit(b == false));
                } else {
                    law_folding_keeps_the_meaning(*expr, r);
                }
            }
        },
        LogicalExprView::BinaryExpr { left, op, right } => {
            law_folding_keeps_the_meaning(*left, r);
            law_folding_keeps_the_meaning(*right, r);
        },
        _ => {},
    }
}

/// Putting a test of its indicator in the place of an EXISTS does not change the value of any
/// expression: not where the EXISTS is true, where its indicator column is 1, and not where it is
/// false, where the column is 0. Literals are read as their values and equality compares integers;
/// every other operator, NOT, AND and OR among them, may be read in any way.
pub proof fn law_substitution_keeps_the_meaning(
    e: LogicalExprView,
    index: nat,
    target: LogicalExprView,
    holds: bool,
    r: Reading,
)
    requires
        target is Exists,
        (r.leaf)(target) == Datum::Numeric(
            NumericView::Integer(
                if holds {
                    1
                } else {
                    0
                },
            ),
        ),
        (r.leaf)(
            LogicalExprView::Column(
                ColumnRefView { name: "__exists_"@ + decimal(index), table: None },
            ),
        ) == (r.leaf)(target),
        forall|i: i64|
            #[trigger] (r.leaf)(LogicalExprView::Literal(Datum::Numeric(NumericView::Integer(i))))
                == Datum::Numeric(NumericView::Integer(i)),
        forall|a: i64, b: i64|
            #[trigger] (r.binary)(
                BinaryOperator::Equals,
                Datum::Numeric(NumericView::Integer(a)),
                Datum::Numeric(NumericView::Integer(b)),
            ) == Datum::Numeric(
                NumericView::Integer(
                    if a == b {
                        1
                    } else {
                        0
                    },
                ),
            ),
    ensures
        meaning(substituted(e, index, target), r) == meaning(e, r),
    decreases e,
{
    if e == target {
        let test = substituted(e, index, target);
        let column = *test->BinaryExpr_left;
        let constant = *test->BinaryExpr_right;
        assert(meaning(column, r) == (r.leaf)(column));
        assert(meaning(constant, r) == (r.leaf)(constant));
        assert(meaning(e, r) == (r.leaf)(target));
    } else {
        match e {
            LogicalExprView::UnaryExpr { op, expr } => {
                law_substitution_keeps_the_meaning(*expr, index, target, holds, r);
            },
            LogicalExprView::BinaryExpr { left, op, right } => {
                law_substitution_keeps_the_meaning(*left, index, target, holds, r);
                law_substitution_keeps_the_meaning(*right, index, target, holds, r);
            },
            _ => {},
        }
    }
}

/// Folding makes no test of an indicator for 1 and takes none away.
proof fn lemma_folding_keeps_tests(e: LogicalExprView)
    ensures
        is_indicator_test(folded(e)) == is_indicator_test(e),
{
    match e {
        LogicalExprView::BinaryExpr { left, op, right } => {
            assert(is_indicator_column(folded(*left)) == is_indicator_column(*left));
            assert(is_literal_one(folded(*right)) == is_literal_one(*right));
        },
        LogicalExprView::UnaryExpr { op, expr } => {
            if op == UnaryOperator::Not && is_indicator_test(*expr) {
                let zero = *folded(e)->BinaryExpr_right;
                assert(int_datum(0) != int_datum(1));
                assert(!is_literal_one(zero));
            }
        },
        _ => {},
    }
}

/// Folding twice changes nothing more than folding once.
pub proof fn law_folding_twice_is_folding_once(e: LogicalExprView)
    ensures
        folded(folded(e)) == folded(e),
    decreases e,
{
    match e {
        LogicalExprView::UnaryExpr { op, expr } => {
            if op == UnaryOperator::Not {
                if is_indicator_test(*expr) {
                    let f = folded(e);
                    assert(folded(*f->BinaryExpr_left) == *f->BinaryExpr_left);
                    assert(folded(*f->BinaryExpr_right) == *f->BinaryExpr_right);
                } else {
                    law_folding_twice_is_folding_once(*expr);
                    lemma_folding_keeps_tests(*expr);
                }
            }
        },
        LogicalExprView::BinaryExpr { left, op, right } => {
            law_folding_twice_is_folding_once(*left);
            law_folding_twice_is_folding_once(*right);
        },
        _ => {},
    }
}

proof fn lemma_outer_columns_concat(
    a: Seq<ColumnRefView>,
    b: Seq<ColumnRefView>,
    outer: Seq<ColumnInfoView>,
    inner: Seq<ColumnInfoView>,
)
    ensures
        outer_columns(a + b, outer, inner) == outer_columns(a, outer, inner) + outer_columns(
            b,
            outer,
            inner,
        ),
    decreases b.len(),
{
    if b.len() == 0 {
        assert(a + b =~= a);
    } else {
        lemma_outer_columns_concat(a, b.drop_last(), outer, inner);
        assert((a + b).drop_last() =~= a + b.drop_last());
    }
}

/// A conjunction reaches out only where one of its conjuncts does.
proof fn lemma_conjoined_stays_inside(
    parts: Seq<LogicalExprView>,
    outer: Seq<ColumnInfoView>,
    inner: Seq<ColumnInfoView>,
)
    requires
        parts.len() > 0,
        forall|i: int| 0 <= i < parts.len() ==> !reaches_out(outer, inner)(#[trigger] parts[i]),
    ensures
        conjoined(parts) matches Some(e) && !reaches_out(outer, inner)(e),
    decreases parts.len(),
{
    if parts.len() > 1 {
        let front = parts.drop_last();
        assert forall|i: int| 0 <= i < front.len() implies !reaches_out(outer, inner)(
            #[trigger] front[i],
        ) by {
            assert(front[i] == parts[i]);
        }
        lemma_conjoined_stays_inside(front, outer, inner);
        assert(!reaches_out(outer, inner)(parts[parts.len() - 1]));
        lemma_outer_columns_concat(
            columns_in(conjoined(front)->Some_0),
            columns_in(parts.last()),
            outer,
            inner,
        );
    } else {
        assert(!reaches_out(outer, inner)(parts[0]));
    }
}

proof fn lemma_keys_cross(
    list: Seq<LogicalExprView>,
    outer: Seq<ColumnInfoView>,
    inner: Seq<ColumnInfoView>,
    i: int,
)
    requires
        0 <= i < keys_among(list, outer, inner).len(),
    ensures
        scope_in(keys_among(list, outer, inner)[i].0, outer, inner) is Outer,
        scope_in(keys_among(list, outer, inner)[i].1, outer, inner) is Inner,
    decreases list.len(),
{
    if list.len() > 0 && i < keys_among(list.drop_last(), outer, inner).len() {
        lemma_keys_cross(list.drop_last(), outer, inner, i);
    }
}

/// What is left of a subquery that has been reduced to a key no longer reaches the outer query:
/// the key is a column of each side, and the condition that stays names columns of its own.
pub proof fn law_what_is_left_stays_inside(subquery: PlanView, outer: Seq<ColumnInfoView>)
    requires
        analysis(subquery, outer) is Ok,
    ensures
        body_of(subquery) is Filter,
        ({
            let c = analysis(subquery, outer)->Ok_0;
            let input = *body_of(subquery)->Filter_input;
            let inner = schema_of(input);
            &&& scope_in(c.outer_key, outer, inner) is Outer
            &&& scope_in(c.inner_key, outer, inner) is Inner
            &&& c.source == input || (c.source matches PlanView::Filter { input: i, predicate }
                && *i == input && outer_columns(columns_in(predicate), outer, inner).len() == 0)
        }),
{
    let input = *body_of(subquery)->Filter_input;
    let inner = schema_of(input);
    let parts = conjuncts(body_of(subquery)->Filter_predicate);
    let locals = locals_among(parts, outer, inner);
    lemma_keys_cross(parts, outer, inner, 0);
    if locals.len() > 0 {
        lemma_first_where(locals, reaches_out(outer, inner));
        lemma_conjoined_stays_inside(locals, outer, inner);
    }
}

// What an analysis keeps.

spec fn all_true(list: Seq<LogicalExprView>, r: Reading, truth: spec_fn(Datum) -> bool) -> bool {
    forall|k: int| 0 <= k < list.len() ==> truth(meaning(#[trigger] list[k], r))
}

spec fn reads_and(r: Reading, truth: spec_fn(Datum) -> bool) -> bool {
    forall|a: Datum, b: Datum|
        truth(#[trigger] (r.binary)(BinaryOperator::And, a, b)) == (truth(a) && truth(b))
}

proof fn lemma_all_true_concat(
    a: Seq<LogicalExprView>,
    b: Seq<LogicalExprView>,
    r: Reading,
    truth: spec_fn(Datum) -> bool,
)
    ensures
        all_true(a + b, r, truth) == (all_true(a, r, truth) && all_true(b, r, truth)),
{
    let both = a + b;
    if all_true(both, r, truth) {
        assert forall|k: int| 0 <= k < a.len() implies truth(meaning(#[trigger] a[k], r)) by {
            assert(both[k] == a[k]);
        }
        assert forall|k: int| 0 <= k < b.len() implies truth(meaning(#[trigger] b[k], r)) by {
            assert(both[a.len() + k] == b[k]);
        }
    }
    if all_true(a, r, truth) && all_true(b, r, truth) {
        assert forall|k: int| 0 <= k < both.len() implies truth(meaning(#[trigger] both[k], r)) by {
            if k < a.len() {
                assert(both[k] == a[k]);
            } else {
                assert(both[k] == b[k - a.len()]);
            }
        }
    }
}

proof fn lemma_conjuncts_true(e: LogicalExprView, r: Reading, truth: spec_fn(Datum) -> bool)
    requires
        reads_and(r, truth),
    ensures
        all_true(conjuncts(e), r, truth) == truth(meaning(e, r)),
    decreases e,
{
    let list = conjuncts(e);
    match e {
        LogicalExprView::BinaryExpr { left, op: BinaryOperator::And, right } => {
            lemma_conjuncts_true(*left, r, truth);
            lemma_conjuncts_true(*right, r, truth);
            lemma_all_true_concat(conjuncts(*left), conjuncts(*right), r, truth);
        },
        _ => {
            assert(list[0] == e);
        },
    }
}

proof fn lemma_conjoined_true(
    parts: Seq<LogicalExprView>,
    r: Reading,
    truth: spec_fn(Datum) -> bool,
)
    requires
        reads_and(r, truth),
        parts.len() > 0,
    ensures
        truth(meaning(conjoined(parts)->Some_0, r)) == all_true(parts, r, truth),
    decreases parts.len(),
{
    if parts.len() == 1 {
        assert(all_true(parts, r, truth) == truth(meaning(parts[0], r)));
    } else {
        let front = parts.drop_last();
        let one = seq![parts.last()];
        lemma_conjoined_true(front, r, truth);
        lemma_all_true_concat(front, one, r, truth);
        assert(front + one =~= parts);
        assert(one[0] == parts.last());
        assert(all_true(one, r, truth) == truth(meaning(parts.last(), r)));
    }
}

spec fn keys_true(
    keys: Seq<(ColumnRefView, ColumnRefView)>,
    r: Reading,
    truth: spec_fn(Datum) -> bool,
) -> bool {
    forall|k: int|
        0 <= k < keys.len() ==> truth(
            (r.binary)(
                BinaryOperator::Equals,
                (r.leaf)(LogicalExprView::Column((#[trigger] keys[k]).0)),
                (r.leaf)(LogicalExprView::Column(keys[k].1)),
            ),
        )
}

proof fn lemma_keys_true_push(
    keys: Seq<(ColumnRefView, ColumnRefView)>,
    key: (ColumnRefView, ColumnRefView),
    r: Reading,
    truth: spec_fn(Datum) -> bool,
)
    ensures
        keys_true(keys.push(key), r, truth) == (keys_true(keys, r, truth) && truth(
            (r.binary)(
                BinaryOperator::Equals,
                (r.leaf)(LogicalExprView::Column(key.0)),
                (r.leaf)(LogicalExprView::Column(key.1)),
            ),
        )),
{
    let more = keys.push(key);
    if keys_true(more, r, truth) {
        assert forall|k: int| 0 <= k < keys.len() implies truth(
            (r.binary)(
                BinaryOperator::Equals,
                (r.leaf)(LogicalExprView::Column((#[trigger] keys[k]).0)),
                (r.leaf)(LogicalExprView::Column(keys[k].1)),
            ),
        ) by {
            assert(more[k] == keys[k]);
        }
        assert(more[keys.len() as int] == key);
    }
}

proof fn lemma_conjuncts_parted(
    list: Seq<LogicalExprView>,
    outer: Seq<ColumnInfoView>,
    inner: Seq<ColumnInfoView>,
    r: Reading,
    truth: spec_fn(Datum) -> bool,
)
    requires
        forall|a: Datum, b: Datum|
            truth(#[trigger] (r.binary)(BinaryOperator::Equals, a, b)) == truth(
                (r.binary)(BinaryOperator::Equals, b, a),
            ),
        !has_inequality(list, outer, inner),
    ensures
        all_true(list, r, truth) == (keys_true(keys_among(list, outer, inner), r, truth)
            && all_true(locals_among(list, outer, inner), r, truth)),
    decreases list.len(),
{
    if list.len() > 0 {
        let front = list.drop_last();
        let last = list.last();
        assert(!has_inequality(front, outer, inner)) by {
            assert forall|i: int| 0 <= i < front.len() implies !(conjunct_kind(
                #[trigger] front[i],
                outer,
                inner,
            ) is Inequality) by {
                assert(front[i] == list[i]);
            }
        }
        assert(list[list.len() - 1] == last);
        lemma_conjuncts_parted(front, outer, inner, r, truth);
        let one = seq![last];
        lemma_all_true_concat(front, one, r, truth);
        assert(front + one =~= list);
        assert(one[0] == last);
        assert(all_true(one, r, truth) == truth(meaning(last, r)));
        match conjunct_kind(last, outer, inner) {
            Conjunct::Key { outer: o, inner: i } => {
                lemma_keys_true_push(keys_among(front, outer, inner), (o, i), r, truth);
                let left = *last->BinaryExpr_left;
                let right = *last->BinaryExpr_right;
                assert(meaning(left, r) == (r.leaf)(left));
                assert(meaning(right, r) == (r.leaf)(right));
                assert(meaning(last, r) == (r.binary)(
                    BinaryOperator::Equals,
                    (r.leaf)(left),
                    (r.leaf)(right),
                ));
            },
            Conjunct::Local => {
                let locals = locals_among(front, outer, inner);
                lemma_all_true_concat(locals, one, r, truth);
                assert(locals + one =~= locals_among(list, outer, inner));
            },
            Conjunct::Inequality => {
                assert(has_inequality(list, outer, inner));
            },
        }
    }
}

/// Reducing a subquery to a key loses nothing of its WHERE: under every reading in which AND is true
/// where both its sides are, and equality looks the same from both sides, the WHERE is true exactly
/// where the two keys are equal and the condition that stays is true.
pub proof fn law_a_reduced_subquery_tests_what_it_tested(
    subquery: PlanView,
    outer: Seq<ColumnInfoView>,
    r: Reading,
    truth: spec_fn(Datum) -> bool,
)
    requires
        analysis(subquery, outer) is Ok,
        forall|a: Datum, b: Datum|
            truth(#[trigger] (r.binary)(BinaryOperator::And, a, b)) == (truth(a) && truth(b)),
        forall|a: Datum, b: Datum|
            truth(#[trigger] (r.binary)(BinaryOperator::Equals, a, b)) == truth(
                (r.binary)(BinaryOperator::Equals, b, a),
            ),
    ensures
        ({
            let c = analysis(subquery, outer)->Ok_0;
            let body = match subquery {
                PlanView::Projection { input, .. } => *input,
                _ => subquery,
            };
            let keys = truth(
                (r.binary)(
                    BinaryOperator::Equals,
                    (r.leaf)(LogicalExprView::Column(c.outer_key)),
                    (r.leaf)(LogicalExprView::Column(c.inner_key)),
                ),
            );
            &&& body matches PlanView::Filter { input, predicate } && {
                ||| c.source == *input && truth(meaning(predicate, r)) == keys
                ||| c.source matches PlanView::Filter { input: i, predicate: rest } && i == input
                    && truth(meaning(predicate, r)) == (keys && truth(meaning(rest, r)))
            }
        }),
{
    let input = *body_of(subquery)->Filter_input;
    let predicate = body_of(subquery)->Filter_predicate;
    let inner = schema_of(input);
    let parts = conjuncts(predicate);
    let keys = keys_among(parts, outer, inner);
    let locals = locals_among(parts, outer, inner);
    assert(reads_and(r, truth));
    lemma_conjuncts_true(predicate, r, truth);
    lemma_conjuncts_parted(parts, outer, inner, r, truth);
    assert(keys_true(keys, r, truth) == truth(
        (r.binary)(
            BinaryOperator::Equals,
            (r.leaf)(LogicalExprView::Column(keys[0].0)),
            (r.leaf)(LogicalExprView::Column(keys[0].1)),
        ),
    ));
    if locals.len() > 0 {
        lemma_conjoined_true(locals, r, truth);
    }
}

// Where columns are mentioned.

proof fn lemma_contains_concat<A>(a: Seq<A>, b: Seq<A>, c: A)
    ensures
        (a + b).contains(c) == (a.contains(c) || b.contains(c)),
{
    let both = a + b;
    if a.contains(c) {
        let i = choose|i: int| 0 <= i < a.len() && a[i] == c;
        assert(both[i] == c);
    }
    if b.contains(c) {
        let i = choose|i: int| 0 <= i < b.len() && b[i] == c;
        assert(both[a.len() + i] == c);
    }
    if both.contains(c) {
        let i = choose|i: int| 0 <= i < both.len() && both[i] == c;
        if i < a.len() {
            assert(a[i] == c);
        } else {
            assert(b[i - a.len()] == c);
        }
    }
}

proof fn lemma_columns_in_list(list: Seq<LogicalExprView>, c: ColumnRefView)
    ensures
        columns_in_list(list).contains(c) <==> exists|i: int|
            0 <= i < list.len() && columns_in(#[trigger] list[i]).contains(c),
    decreases list.len(),
{
    if list.len() > 0 {
        let front = list.drop_last();
        lemma_columns_in_list(front, c);
        lemma_contains_concat(columns_in_list(front), columns_in(list.last()), c);
        if exists|i: int| 0 <= i < front.len() && columns_in(#[trigger] front[i]).contains(c) {
            let i = choose|i: int|
                0 <= i < front.len() && columns_in(#[trigger] front[i]).contains(c);
            assert(list[i] == front[i]);
        }
        if exists|i: int| 0 <= i < list.len() && columns_in(#[trigger] list[i]).contains(c) {
            let i = choose|i: int|
                0 <= i < list.len() && columns_in(#[trigger] list[i]).contains(c);
            if i < front.len() {
                assert(front[i] == list[i]);
            }
        }
        assert(list[list.len() - 1] == list.last());
    } else {
        assert(!columns_in_list(list).contains(c));
    }
}

proof fn lemma_columns_in_pairs(list: Seq<(LogicalExprView, LogicalExprView)>, c: ColumnRefView)
    ensures
        columns_in_pairs(list).contains(c) <==> exists|i: int|
            0 <= i < list.len() && (columns_in((#[trigger] list[i]).0).contains(c) || columns_in(
                list[i].1,
            ).contains(c)),
    decreases list.len(),
{
    if list.len() > 0 {
        let front = list.drop_last();
        lemma_columns_in_pairs(front, c);
        lemma_contains_concat(
            columns_in_pairs(front) + columns_in(list.last().0),
            columns_in(list.last().1),
            c,
        );
        lemma_contains_concat(columns_in_pairs(front), columns_in(list.last().0), c);
        if columns_in_pairs(front).contains(c) {
            let i = choose|i: int|
                0 <= i < front.len() && (columns_in((#[trigger] front[i]).0).contains(c)
                    || columns_in(front[i].1).contains(c));
            assert(list[i] == front[i]);
        }
        if exists|i: int|
            0 <= i < list.len() && (columns_in((#[trigger] list[i]).0).contains(c) || columns_in(
                list[i].1,
            ).contains(c)) {
            let i = choose|i: int|
                0 <= i < list.len() && (columns_in((#[trigger] list[i]).0).contains(c)
                    || columns_in(list[i].1).contains(c));
            if i < front.len() {
                assert(front[i] == list[i]);
            }
        }
        assert(list[list.len() - 1] == list.last());
    } else {
        assert(!columns_in_pairs(list).contains(c));
    }
}

/// A column is mentioned in an expression exactly if it is mentioned in one of its parts, in every
/// argument, branch, bound and filter, and in a subquery.
pub proof fn law_an_expression_mentions_what_its_parts_mention(e: LogicalExprView, c: ColumnRefView)
    ensures
        columns_in(e).contains(c) <==> match e {
            LogicalExprView::Column(own) => own == c,
            LogicalExprView::Literal(_) => false,
            LogicalExprView::BinaryExpr { left, right, .. } => columns_in(*left).contains(c)
                || columns_in(*right).contains(c),
            LogicalExprView::UnaryExpr { expr, .. } => columns_in(*expr).contains(c),
            LogicalExprView::AggregateFunction { args, filter, .. } => (exists|i: int|
                0 <= i < args.len() && columns_in(#[trigger] args[i]).contains(c)) || (
            filter matches Some(f) && columns_in(*f).contains(c)),
            LogicalExprView::ScalarFunction { args, .. } => exists|i: int|
                0 <= i < args.len() && columns_in(#[trigger] args[i]).contains(c),
            LogicalExprView::Alias { expr, .. } => columns_in(*expr).contains(c),
            LogicalExprView::Case { base, when_then, else_expr } => {
                ||| base matches Some(b) && columns_in(*b).contains(c)
                ||| exists|i: int|
                    0 <= i < when_then.len() && (columns_in(
                        (#[trigger] when_then[i]).0,
                    ).contains(c) || columns_in(when_then[i].1).contains(c))
                ||| else_expr matches Some(b) && columns_in(*b).contains(c)
            },
            LogicalExprView::InList { expr, list, .. } => columns_in(*expr).contains(c) || exists|
                i: int,
            |
                0 <= i < list.len() && columns_in(#[trigger] list[i]).contains(c),
            LogicalExprView::InSubquery { expr, subquery, .. } => columns_in(*expr).contains(c)
                || columns_in_plan(*subquery).contains(c),
            LogicalExprView::Exists { subquery, .. } => columns_in_plan(*subquery).contains(c),
            LogicalExprView::ScalarSubquery(p) => columns_in_plan(*p).contains(c),
            LogicalExprView::IsNull { expr, .. } => columns_in(*expr).contains(c),
            LogicalExprView::Between { expr, low, high, .. } => columns_in(*expr).contains(c)
                || columns_in(*low).contains(c) || columns_in(*high).contains(c),
            LogicalExprView::Like { expr, pattern, .. } => columns_in(*expr).contains(c)
                || columns_in(*pattern).contains(c),
            LogicalExprView::Cast { expr, .. } => columns_in(*expr).contains(c),
        },
{
    let none = Seq::<ColumnRefView>::empty();
    assert(!none.contains(c));
    match e {
        LogicalExprView::Column(own) => {
            assert(columns_in(e)[0] == own);
        },
        LogicalExprView::BinaryExpr { left, right, .. } => {
            lemma_contains_concat(columns_in(*left), columns_in(*right), c);
        },
        LogicalExprView::AggregateFunction { args, filter, .. } => {
            lemma_columns_in_list(args, c);
            match filter {
                Some(f) => lemma_contains_concat(columns_in_list(args), columns_in(*f), c),
                None => lemma_contains_concat(columns_in_list(args), none, c),
            }
        },
        LogicalExprView::ScalarFunction { args, .. } => {
            lemma_columns_in_list(args, c);
        },
        LogicalExprView::Case { base, when_then, else_expr } => {
            lemma_columns_in_pairs(when_then, c);
            let first = match base {
                Some(b) => columns_in(*b),
                None => none,
            };
            let last = match else_expr {
                Some(b) => columns_in(*b),
                None => none,
            };
            lemma_contains_concat(first + columns_in_pairs(when_then), last, c);
            lemma_contains_concat(first, columns_in_pairs(when_then), c);
        },
        LogicalExprView::InList { expr, list, .. } => {
            lemma_columns_in_list(list, c);
            lemma_contains_concat(columns_in(*expr), columns_in_list(list), c);
        },
        LogicalExprView::InSubquery { expr, subquery, .. } => {
            lemma_contains_concat(columns_in(*expr), columns_in_plan(*subquery), c);
        },
        LogicalExprView::Between { expr, low, high, .. } => {
            lemma_contains_concat(columns_in(*expr) + columns_in(*low), columns_in(*high), c);
            lemma_contains_concat(columns_in(*expr), columns_in(*low), c);
        },
        LogicalExprView::Like { expr, pattern, .. } => {
            lemma_contains_concat(columns_in(*expr), columns_in(*pattern), c);
        },
        _ => {},
    }
}

proof fn lemma_columns_in_plans(list: Seq<PlanView>, c: ColumnRefView)
    ensures
        columns_in_plans(list).contains(c) <==> exists|i: int|
            0 <= i < list.len() && columns_in_plan(#[trigger] list[i]).contains(c),
    decreases list.len(),
{
    if list.len() > 0 {
        let front = list.drop_last();
        lemma_columns_in_plans(front, c);
        lemma_contains_concat(columns_in_plans(front), columns_in_plan(list.last()), c);
        if columns_in_plans(front).contains(c) {
            let i = choose|i: int|
                0 <= i < front.len() && columns_in_plan(#[trigger] front[i]).contains(c);
            assert(list[i] == front[i]);
        }
        if exists|i: int| 0 <= i < list.len() && columns_in_plan(#[trigger] list[i]).contains(c) {
            let i = choose|i: int|
                0 <= i < list.len() && columns_in_plan(#[trigger] list[i]).contains(c);
            if i < front.len() {
                assert(front[i] == list[i]);
            }
        }
        assert(list[list.len() - 1] == list.last());
    } else {
        assert(!columns_in_plans(list).contains(c));
    }
}

proof fn lemma_columns_in_named(list: Seq<(Seq<char>, PlanView)>, c: ColumnRefView)
    ensures
        columns_in_named(list).contains(c) <==> exists|i: int|
            0 <= i < list.len() && columns_in_plan((#[trigger] list[i]).1).contains(c),
    decreases list.len(),
{
    if list.len() > 0 {
        let front = list.drop_last();
        lemma_columns_in_named(front, c);
        lemma_contains_concat(columns_in_named(front), columns_in_plan(list.last().1), c);
        if columns_in_named(front).contains(c) {
            let i = choose|i: int|
                0 <= i < front.len() && columns_in_plan((#[trigger] front[i]).1).contains(c);
            assert(list[i] == front[i]);
        }
        if exists|i: int|
            0 <= i < list.len() && columns_in_plan((#[trigger] list[i]).1).contains(c) {
            let i = choose|i: int|
                0 <= i < list.len() && columns_in_plan((#[trigger] list[i]).1).contains(c);
            if i < front.len() {
                assert(front[i] == list[i]);
            }
        }
        assert(list[list.len() - 1] == list.last());
    } else {
        assert(!columns_in_named(list).contains(c));
    }
}

proof fn lemma_columns_in_rows(list: Seq<Seq<LogicalExprView>>, c: ColumnRefView)
    ensures
        columns_in_rows(list).contains(c) <==> exists|i: int, j: int|
            0 <= i < list.len() && 0 <= j < list[i].len() && columns_in(
                #[trigger] list[i][j],
            ).contains(c),
    decreases list.len(),
{
    if list.len() > 0 {
        let front = list.drop_last();
        let last = list.len() - 1;
        lemma_columns_in_rows(front, c);
        lemma_columns_in_list(list.last(), c);
        lemma_contains_concat(columns_in_rows(front), columns_in_list(list.last()), c);
        if columns_in_rows(front).contains(c) {
            let (i, j) = choose|i: int, j: int|
                0 <= i < front.len() && 0 <= j < front[i].len() && columns_in(
                    #[trigger] front[i][j],
                ).contains(c);
            assert(list[i][j] == front[i][j]);
        }
        if columns_in_list(list.last()).contains(c) {
            let j = choose|j: int|
                0 <= j < list.last().len() && columns_in(#[trigger] list.last()[j]).contains(c);
            assert(list[last][j] == list.last()[j]);
        }
        if exists|i: int, j: int|
            0 <= i < list.len() && 0 <= j < list[i].len() && columns_in(
                #[trigger] list[i][j],
            ).contains(c) {
            let (i, j) = choose|i: int, j: int|
                0 <= i < list.len() && 0 <= j < list[i].len() && columns_in(
                    #[trigger] list[i][j],
                ).contains(c);
            if i < last {
                assert(front[i][j] == list[i][j]);
            } else {
                assert(list.last()[j] == list[i][j]);
            }
        }
    } else {
        assert(!columns_in_rows(list).contains(c));
    }
}

/// A column is mentioned in a plan exactly if it is mentioned in one of the expressions of its
/// operators or in a plan below.
pub proof fn law_a_plan_mentions_what_its_parts_mention(p: PlanView, c: ColumnRefView)
    ensures
        columns_in_plan(p).contains(c) <==> match p {
            PlanView::Projection { input, exprs, .. } => columns_in_plan(*input).contains(c)
                || exists|i: int|
                0 <= i < exprs.len() && columns_in(#[trigger] exprs[i]).contains(c),
            PlanView::Filter { input, predicate } => columns_in_plan(*input).contains(c)
                || columns_in(predicate).contains(c),
            PlanView::Aggregate { input, group_expr, aggr_expr, .. } => {
                ||| columns_in_plan(*input).contains(c)
                ||| exists|i: int|
                    0 <= i < group_expr.len() && columns_in(#[trigger] group_expr[i]).contains(c)
                ||| exists|i: int|
                    0 <= i < aggr_expr.len() && columns_in(#[trigger] aggr_expr[i]).contains(c)
            },
            PlanView::Join { left, right, on, filter, .. } => {
                ||| columns_in_plan(*left).contains(c)
                ||| columns_in_plan(*right).contains(c)
                ||| exists|i: int|
                    0 <= i < on.len() && (columns_in((#[trigger] on[i]).0).contains(c)
                        || columns_in(on[i].1).contains(c))
                ||| filter matches Some(f) && columns_in(*f).contains(c)
            },
            PlanView::Sort { input, exprs } => columns_in_plan(*input).contains(c) || exists|
                i: int,
            |
                0 <= i < exprs.len() && columns_in(#[trigger] exprs[i]).contains(c),
            PlanView::Limit { input, .. } => columns_in_plan(*input).contains(c),
            PlanView::Union { inputs, .. } => exists|i: int|
                0 <= i < inputs.len() && columns_in_plan(#[trigger] inputs[i]).contains(c),
            PlanView::Distinct { input } => columns_in_plan(*input).contains(c),
            PlanView::WithCTE { ctes, body } => columns_in_plan(*body).contains(c) || exists|
                i: int,
            |
                0 <= i < ctes.len() && columns_in_plan((#[trigger] ctes[i]).1).contains(c),
            PlanView::RecursiveCTE { base_case, recursive_step, .. } => columns_in_plan(
                *base_case,
            ).contains(c) || columns_in_plan(*recursive_step).contains(c),
            PlanView::Values { rows, .. } => exists|i: int, j: int|
                0 <= i < rows.len() && 0 <= j < rows[i].len() && columns_in(
                    #[trigger] rows[i][j],
                ).contains(c),
            _ => false,
        },
{
    let none = Seq::<ColumnRefView>::empty();
    assert(!none.contains(c));
    match p {
        PlanView::Projection { input, exprs, .. } => {
            lemma_columns_in_list(exprs, c);
            lemma_contains_concat(columns_in_plan(*input), columns_in_list(exprs), c);
        },
        PlanView::Filter { input, predicate } => {
            lemma_contains_concat(columns_in_plan(*input), columns_in(predicate), c);
        },
        PlanView::Aggregate { input, group_expr, aggr_expr, .. } => {
            lemma_columns_in_list(group_expr, c);
            lemma_columns_in_list(aggr_expr, c);
            lemma_contains_concat(
                columns_in_plan(*input) + columns_in_list(group_expr),
                columns_in_list(aggr_expr),
                c,
            );
            lemma_contains_concat(columns_in_plan(*input), columns_in_list(group_expr), c);
        },
        PlanView::Join { left, right, on, filter, .. } => {
            lemma_columns_in_pairs(on, c);
            let last = match filter {
                Some(f) => columns_in(*f),
                None => none,
            };
            let sides = columns_in_plan(*left) + columns_in_plan(*right);
            lemma_contains_concat(sides + columns_in_pairs(on), last, c);
            lemma_contains_concat(sides, columns_in_pairs(on), c);
            lemma_contains_concat(columns_in_plan(*left), columns_in_plan(*right), c);
        },
        PlanView::Sort { input, exprs } => {
            lemma_columns_in_list(exprs, c);
            lemma_contains_concat(columns_in_plan(*input), columns_in_list(exprs), c);
        },
        PlanView::Union { inputs, .. } => {
            lemma_columns_in_plans(inputs, c);
        },
        PlanView::Values { rows, .. } => {
            lemma_columns_in_rows(rows, c);
        },
        PlanView::WithCTE { ctes, body } => {
            lemma_columns_in_named(ctes, c);
            lemma_contains_concat(columns_in_named(ctes), columns_in_plan(*body), c);
        },
        PlanView::RecursiveCTE { base_case, recursive_step, .. } => {
            lemma_contains_concat(
                columns_in_plan(*base_case),
                columns_in_plan(*recursive_step),
                c,
            );
        },
        _ => {},
    }
}

/// A column belongs to the scope that has it, if the other has it not.
pub proof fn law_a_column_belongs_to_the_only_scope_that_has_it(
    c: ColumnRefView,
    outer: Seq<ColumnInfoView>,
    inner: Seq<ColumnInfoView>,
)
    ensures
        ({
            let in_outer = column_position(outer, c.name, c.table) is Some;
            let in_inner = column_position(inner, c.name, c.table) is Some;
            &&& scope_in(c, outer, inner) is Outer <==> in_outer && !in_inner
            &&& scope_in(c, outer, inner) is Inner <==> in_inner && !in_outer
        }),
{
}

} // verus!
