//! Copying and comparing plans, and looking up their columns.

use vstd::prelude::*;

use crate::ast::text_view;
use crate::logical::{
    copy_text, lemma_lexpr_views, lemma_named_plan_views, lemma_pair_views, lemma_plan_views,
    lemma_row_views, lexpr_views, named_plan_views, pair_views, plan_views, row_views,
    same_opt_text, Column, ColumnInfoView, LogicalExpr, LogicalPlan, LogicalSchema, PlanView,
};
use crate::seqs::{first_where, lemma_first_where, lemma_is_first_where, lemma_none_where};
use crate::text::{find_dot, first_dot, is_dot, same_text};

verus! {

/// A copy of a list of expressions.
pub fn copy_exprs(list: &Vec<LogicalExpr>) -> (r: Vec<LogicalExpr>)
    ensures
        lexpr_views(r@) == lexpr_views(list@),
        r@.len() == list@.len(),
    decreases list,
{
    let mut out: Vec<LogicalExpr> = Vec::new();
    let mut i: usize = 0;
    while i < list.len()
        invariant
            i <= list.len(),
            out@.len() == i,
            forall|j: int| 0 <= j < i ==> (#[trigger] out@[j]).view() == list@[j].view(),
        decreases list.len() - i,
    {
        assert(decreases_to!(list => list@[i as int]));
        out.push(copy_expr(&list[i]));
        i += 1;
    }
    proof {
        lemma_lexpr_views(out@);
        lemma_lexpr_views(list@);
        assert(lexpr_views(out@) =~= lexpr_views(list@));
    }
    out
}

/// A copy of a list of pairs of expressions.
pub fn copy_pairs(list: &Vec<(LogicalExpr, LogicalExpr)>) -> (r: Vec<(LogicalExpr, LogicalExpr)>)
    ensures
        pair_views(r@) == pair_views(list@),
        r@.len() == list@.len(),
    decreases list,
{
    let mut out: Vec<(LogicalExpr, LogicalExpr)> = Vec::new();
    let mut i: usize = 0;
    while i < list.len()
        invariant
            i <= list.len(),
            out@.len() == i,
            forall|j: int|
                0 <= j < i ==> (#[trigger] out@[j]).0.view() == list@[j].0.view()
                    && out@[j].1.view() == list@[j].1.view(),
        decreases list.len() - i,
    {
        assert(decreases_to!(list => list@[i as int]));
        assert(decreases_to!(list@[i as int] => list@[i as int].0));
        assert(decreases_to!(list@[i as int] => list@[i as int].1));
        out.push((copy_expr(&list[i].0), copy_expr(&list[i].1)));
        i += 1;
    }
    proof {
        lemma_pair_views(out@);
        lemma_pair_views(list@);
        assert(pair_views(out@) =~= pair_views(list@));
    }
    out
}

fn copy_rows(list: &Vec<Vec<LogicalExpr>>) -> (r: Vec<Vec<LogicalExpr>>)
    ensures
        row_views(r@) == row_views(list@),
        r@.len() == list@.len(),
    decreases list,
{
    let mut out: Vec<Vec<LogicalExpr>> = Vec::new();
    let mut i: usize = 0;
    while i < list.len()
        invariant
            i <= list.len(),
            out@.len() == i,
            forall|j: int|
                0 <= j < i ==> lexpr_views((#[trigger] out@[j])@) == lexpr_views(list@[j]@),
        decreases list.len() - i,
    {
        assert(decreases_to!(list => list@[i as int]));
        out.push(copy_exprs(&list[i]));
        i += 1;
    }
    proof {
        lemma_row_views(out@);
        lemma_row_views(list@);
        assert(row_views(out@) =~= row_views(list@));
    }
    out
}

fn copy_plans(list: &Vec<LogicalPlan>) -> (r: Vec<LogicalPlan>)
    ensures
        plan_views(r@) == plan_views(list@),
        r@.len() == list@.len(),
    decreases list,
{
    let mut out: Vec<LogicalPlan> = Vec::new();
    let mut i: usize = 0;
    while i < list.len()
        invariant
            i <= list.len(),
            out@.len() == i,
            forall|j: int| 0 <= j < i ==> (#[trigger] out@[j]).view() == list@[j].view(),
        decreases list.len() - i,
    {
        assert(decreases_to!(list => list@[i as int]));
        out.push(copy_plan(&list[i]));
        i += 1;
    }
    proof {
        lemma_plan_views(out@);
        lemma_plan_views(list@);
        assert(plan_views(out@) =~= plan_views(list@));
    }
    out
}

fn copy_named_plans(list: &Vec<(String, LogicalPlan)>) -> (r: Vec<(String, LogicalPlan)>)
    ensures
        named_plan_views(r@) == named_plan_views(list@),
        r@.len() == list@.len(),
    decreases list,
{
    let mut out: Vec<(String, LogicalPlan)> = Vec::new();
    let mut i: usize = 0;
    while i < list.len()
        invariant
            i <= list.len(),
            out@.len() == i,
            forall|j: int|
                0 <= j < i ==> (#[trigger] out@[j]).0@ == list@[j].0@ && out@[j].1.view()
                    == list@[j].1.view(),
        decreases list.len() - i,
    {
        assert(decreases_to!(list => list@[i as int]));
        assert(decreases_to!(list@[i as int] => list@[i as int].1));
        out.push((list[i].0.clone(), copy_plan(&list[i].1)));
        i += 1;
    }
    proof {
        lemma_named_plan_views(out@);
        lemma_named_plan_views(list@);
        assert(named_plan_views(out@) =~= named_plan_views(list@));
    }
    out
}

/// A copy of an expression that may be absent.
pub fn copy_opt_expr(e: &Option<Box<LogicalExpr>>) -> (r: Option<Box<LogicalExpr>>)
    ensures
        match (*e, r) {
            (Some(a), Some(b)) => a.view() == b.view(),
            (None, None) => true,
            _ => false,
        },
    decreases e,
{
    match e {
        Some(b) => Some(Box::new(copy_expr(b))),
        None => None,
    }
}

/// A copy of an expression.
pub fn copy_expr(e: &LogicalExpr) -> (r: LogicalExpr)
    ensures
        r.view() == e.view(),
    decreases e,
{
    match e {
        LogicalExpr::Column(c) => LogicalExpr::Column(c.clone()),
        LogicalExpr::Literal(v) => LogicalExpr::Literal(v.clone()),
        LogicalExpr::BinaryExpr { left, op, right } => LogicalExpr::BinaryExpr {
            left: Box::new(copy_expr(left)),
            op: *op,
            right: Box::new(copy_expr(right)),
        },
        LogicalExpr::UnaryExpr { op, expr } => LogicalExpr::UnaryExpr {
            op: *op,
            expr: Box::new(copy_expr(expr)),
        },
        LogicalExpr::AggregateFunction { fun, args, distinct, filter } => {
            LogicalExpr::AggregateFunction {
                fun: *fun,
                args: copy_exprs(args),
                distinct: *distinct,
                filter: copy_opt_expr(filter),
            }
        },
        LogicalExpr::ScalarFunction { name, args } => LogicalExpr::ScalarFunction {
            name: name.clone(),
            args: copy_exprs(args),
        },
        LogicalExpr::Alias { expr, alias } => LogicalExpr::Alias {
            expr: Box::new(copy_expr(expr)),
            alias: alias.clone(),
        },
        LogicalExpr::Case { base, when_then, else_expr } => LogicalExpr::Case {
            base: copy_opt_expr(base),
            when_then: copy_pairs(when_then),
            else_expr: copy_opt_expr(else_expr),
        },
        LogicalExpr::InList { expr, list, negated } => LogicalExpr::InList {
            expr: Box::new(copy_expr(expr)),
            list: copy_exprs(list),
            negated: *negated,
        },
        LogicalExpr::InSubquery { expr, subquery, negated } => LogicalExpr::InSubquery {
            expr: Box::new(copy_expr(expr)),
            subquery: Box::new(copy_plan(subquery)),
            negated: *negated,
        },
        LogicalExpr::Exists { subquery, negated } => LogicalExpr::Exists {
            subquery: Box::new(copy_plan(subquery)),
            negated: *negated,
        },
        LogicalExpr::ScalarSubquery(p) => LogicalExpr::ScalarSubquery(Box::new(copy_plan(p))),
        LogicalExpr::IsNull { expr, negated } => LogicalExpr::IsNull {
            expr: Box::new(copy_expr(expr)),
            negated: *negated,
        },
        LogicalExpr::Between { expr, low, high, negated } => LogicalExpr::Between {
            expr: Box::new(copy_expr(expr)),
            low: Box::new(copy_expr(low)),
            high: Box::new(copy_expr(high)),
            negated: *negated,
        },
        LogicalExpr::Like { expr, pattern, escape, negated } => LogicalExpr::Like {
            expr: Box::new(copy_expr(expr)),
            pattern: Box::new(copy_expr(pattern)),
            escape: copy_text(escape),
            negated: *negated,
        },
        LogicalExpr::Cast { expr, cast_type } => LogicalExpr::Cast {
            expr: Box::new(copy_expr(expr)),
            cast_type: copy_text(cast_type),
        },
    }
}

/// A copy of a plan.
pub fn copy_plan(p: &LogicalPlan) -> (r: LogicalPlan)
    ensures
        r.view() == p.view(),
    decreases p,
{
    match p {
        LogicalPlan::Projection { input, exprs, schema } => LogicalPlan::Projection {
            input: Box::new(copy_plan(input)),
            exprs: copy_exprs(exprs),
            schema: schema.clone(),
        },
        LogicalPlan::Filter { input, predicate } => LogicalPlan::Filter {
            input: Box::new(copy_plan(input)),
            predicate: copy_expr(predicate),
        },
        LogicalPlan::Aggregate { input, group_expr, aggr_expr, schema } => LogicalPlan::Aggregate {
            input: Box::new(copy_plan(input)),
            group_expr: copy_exprs(group_expr),
            aggr_expr: copy_exprs(aggr_expr),
            schema: schema.clone(),
        },
        LogicalPlan::Join { left, right, join_type, on, filter, schema } => LogicalPlan::Join {
            left: Box::new(copy_plan(left)),
            right: Box::new(copy_plan(right)),
            join_type: *join_type,
            on: copy_pairs(on),
            filter: copy_opt_expr(filter),
            schema: schema.clone(),
        },
        LogicalPlan::Sort { input, exprs } => LogicalPlan::Sort {
            input: Box::new(copy_plan(input)),
            exprs: copy_exprs(exprs),
        },
        LogicalPlan::Limit { input, fetch } => LogicalPlan::Limit {
            input: Box::new(copy_plan(input)),
            fetch: *fetch,
        },
        LogicalPlan::TableScan { table_name, schema } => LogicalPlan::TableScan {
            table_name: table_name.clone(),
            schema: schema.clone(),
        },
        LogicalPlan::Union { inputs, all, schema } => LogicalPlan::Union {
            inputs: copy_plans(inputs),
            all: *all,
            schema: schema.clone(),
        },
        LogicalPlan::Distinct { input } => LogicalPlan::Distinct {
            input: Box::new(copy_plan(input)),
        },
        LogicalPlan::EmptyRelation { produce_one_row, schema } => LogicalPlan::EmptyRelation {
            produce_one_row: *produce_one_row,
            schema: schema.clone(),
        },
        LogicalPlan::Values { rows, schema } => LogicalPlan::Values {
            rows: copy_rows(rows),
            schema: schema.clone(),
        },
        LogicalPlan::WithCTE { ctes, body } => LogicalPlan::WithCTE {
            ctes: copy_named_plans(ctes),
            body: Box::new(copy_plan(body)),
        },
        LogicalPlan::CTERef { name, schema } => LogicalPlan::CTERef {
            name: name.clone(),
            schema: schema.clone(),
        },
        LogicalPlan::RecursiveCTE {
            name,
            base_case,
            recursive_step,
            union_all,
            max_iterations,
            schema,
        } => LogicalPlan::RecursiveCTE {
            name: name.clone(),
            base_case: Box::new(copy_plan(base_case)),
            recursive_step: Box::new(copy_plan(recursive_step)),
            union_all: *union_all,
            max_iterations: *max_iterations,
            schema: schema.clone(),
        },
        LogicalPlan::RecursiveCTERef { name, schema } => LogicalPlan::RecursiveCTERef {
            name: name.clone(),
            schema: schema.clone(),
        },
    }
}

fn same_exprs(a: &Vec<LogicalExpr>, b: &Vec<LogicalExpr>) -> (r: bool)
    ensures
        r == (lexpr_views(a@) == lexpr_views(b@)),
    decreases a,
{
    proof {
        lemma_lexpr_views(a@);
        lemma_lexpr_views(b@);
    }
    if a.len() != b.len() {
        return false;
    }
    let mut i: usize = 0;
    while i < a.len()
        invariant
            i <= a.len(),
            a.len() == b.len(),
            lexpr_views(a@).len() == a@.len(),
            lexpr_views(b@).len() == b@.len(),
            forall|j: int| 0 <= j < i ==> #[trigger] lexpr_views(a@)[j] == lexpr_views(b@)[j],
        decreases a.len() - i,
    {
        proof {
            lemma_lexpr_views(a@);
            lemma_lexpr_views(b@);
            assert(decreases_to!(a => a@[i as int]));
        }
        if !(same_expr(&a[i], &b[i])) {
            assert(lexpr_views(a@)[i as int] != lexpr_views(b@)[i as int]);
            return false;
        }
        assert(lexpr_views(a@)[i as int] == lexpr_views(b@)[i as int]);
        i += 1;
    }
    assert(lexpr_views(a@) =~= lexpr_views(b@));
    true
}

fn same_pairs(a: &Vec<(LogicalExpr, LogicalExpr)>, b: &Vec<(LogicalExpr, LogicalExpr)>) -> (r: bool)
    ensures
        r == (pair_views(a@) == pair_views(b@)),
    decreases a,
{
    proof {
        lemma_pair_views(a@);
        lemma_pair_views(b@);
    }
    if a.len() != b.len() {
        return false;
    }
    let mut i: usize = 0;
    while i < a.len()
        invariant
            i <= a.len(),
            a.len() == b.len(),
            pair_views(a@).len() == a@.len(),
            pair_views(b@).len() == b@.len(),
            forall|j: int| 0 <= j < i ==> #[trigger] pair_views(a@)[j] == pair_views(b@)[j],
        decreases a.len() - i,
    {
        proof {
            lemma_pair_views(a@);
            lemma_pair_views(b@);
            assert(decreases_to!(a => a@[i as int]));
            assert(decreases_to!(a@[i as int] => a@[i as int].0));
            assert(decreases_to!(a@[i as int] => a@[i as int].1));
        }
        if !(same_expr(&a[i].0, &b[i].0) && same_expr(&a[i].1, &b[i].1)) {
            assert(pair_views(a@)[i as int] != pair_views(b@)[i as int]);
            return false;
        }
        assert(pair_views(a@)[i as int] == pair_views(b@)[i as int]);
        i += 1;
    }
    assert(pair_views(a@) =~= pair_views(b@));
    true
}

fn same_rows(a: &Vec<Vec<LogicalExpr>>, b: &Vec<Vec<LogicalExpr>>) -> (r: bool)
    ensures
        r == (row_views(a@) == row_views(b@)),
    decreases a,
{
    proof {
        lemma_row_views(a@);
        lemma_row_views(b@);
    }
    if a.len() != b.len() {
        return false;
    }
    let mut i: usize = 0;
    while i < a.len()
        invariant
            i <= a.len(),
            a.len() == b.len(),
            row_views(a@).len() == a@.len(),
            row_views(b@).len() == b@.len(),
            forall|j: int| 0 <= j < i ==> #[trigger] row_views(a@)[j] == row_views(b@)[j],
        decreases a.len() - i,
    {
        proof {
            lemma_row_views(a@);
            lemma_row_views(b@);
            assert(decreases_to!(a => a@[i as int]));
        }
        if !(same_exprs(&a[i], &b[i])) {
            assert(row_views(a@)[i as int] != row_views(b@)[i as int]);
            return false;
        }
        assert(row_views(a@)[i as int] == row_views(b@)[i as int]);
        i += 1;
    }
    assert(row_views(a@) =~= row_views(b@));
    true
}

fn same_plans(a: &Vec<LogicalPlan>, b: &Vec<LogicalPlan>) -> (r: bool)
    ensures
        r == (plan_views(a@) == plan_views(b@)),
    decreases a,
{
    proof {
        lemma_plan_views(a@);
        lemma_plan_views(b@);
    }
    if a.len() != b.len() {
        return false;
    }
    let mut i: usize = 0;
    while i < a.len()
        invariant
            i <= a.len(),
            a.len() == b.len(),
            plan_views(a@).len() == a@.len(),
            plan_views(b@).len() == b@.len(),
            forall|j: int| 0 <= j < i ==> #[trigger] plan_views(a@)[j] == plan_views(b@)[j],
        decreases a.len() - i,
    {
        proof {
            lemma_plan_views(a@);
            lemma_plan_views(b@);
            assert(decreases_to!(a => a@[i as int]));
        }
        if !(same_plan(&a[i], &b[i])) {
            assert(plan_views(a@)[i as int] != plan_views(b@)[i as int]);
            return false;
        }
        assert(plan_views(a@)[i as int] == plan_views(b@)[i as int]);
        i += 1;
    }
    assert(plan_views(a@) =~= plan_views(b@));
    true
}

fn same_named_plans(a: &Vec<(String, LogicalPlan)>, b: &Vec<(String, LogicalPlan)>) -> (r: bool)
    ensures
        r == (named_plan_views(a@) == named_plan_views(b@)),
    decreases a,
{
    proof {
        lemma_named_plan_views(a@);
        lemma_named_plan_views(b@);
    }
    if a.len() != b.len() {
        return false;
    }
    let mut i: usize = 0;
    while i < a.len()
        invariant
            i <= a.len(),
            a.len() == b.len(),
            named_plan_views(a@).len() == a@.len(),
            named_plan_views(b@).len() == b@.len(),
            forall|j: int| 0 <= j < i ==> #[trigger] named_plan_views(a@)[j] == named_plan_views(b@)[j],
        decreases a.len() - i,
    {
        proof {
            lemma_named_plan_views(a@);
            lemma_named_plan_views(b@);
            assert(decreases_to!(a => a@[i as int]));
            assert(decreases_to!(a@[i as int] => a@[i as int].1));
        }
        if !(a[i].0 == b[i].0 && same_plan(&a[i].1, &b[i].1)) {
            assert(named_plan_views(a@)[i as int] != named_plan_views(b@)[i as int]);
            return false;
        }
        assert(named_plan_views(a@)[i as int] == named_plan_views(b@)[i as int]);
        i += 1;
    }
    assert(named_plan_views(a@) =~= named_plan_views(b@));
    true
}

fn same_opt_expr(a: &Option<Box<LogicalExpr>>, b: &Option<Box<LogicalExpr>>) -> (r: bool)
    ensures
        r == (match (*a, *b) {
            (Some(x), Some(y)) => x.view() == y.view(),
            (None, None) => true,
            _ => false,
        }),
    decreases a,
{
    match (a, b) {
        (Some(x), Some(y)) => same_expr(x, y),
        (None, None) => true,
        _ => false,
    }
}

fn same_count(a: &Option<usize>, b: &Option<usize>) -> (r: bool)
    ensures
        r == (*a == *b),
{
    match (a, b) {
        (Some(x), Some(y)) => *x == *y,
        (None, None) => true,
        _ => false,
    }
}

/// Whether two expressions are the same.
pub fn same_expr(a: &LogicalExpr, b: &LogicalExpr) -> (r: bool)
    ensures
        r == (a.view() == b.view()),
    decreases a,
{
    match (a, b) {
        (LogicalExpr::Column(x), LogicalExpr::Column(y)) => x.same(y),
        (LogicalExpr::Literal(x), LogicalExpr::Literal(y)) => x.same(y),
        (
            LogicalExpr::BinaryExpr { left: l1, op: o1, right: r1 },
            LogicalExpr::BinaryExpr { left: l2, op: o2, right: r2 },
        ) => *o1 == *o2 && same_expr(l1, l2) && same_expr(r1, r2),
        (
            LogicalExpr::UnaryExpr { op: o1, expr: e1 },
            LogicalExpr::UnaryExpr { op: o2, expr: e2 },
        ) => *o1 == *o2 && same_expr(e1, e2),
        (
            LogicalExpr::AggregateFunction { fun: f1, args: a1, distinct: d1, filter: p1 },
            LogicalExpr::AggregateFunction { fun: f2, args: a2, distinct: d2, filter: p2 },
        ) => *f1 == *f2 && *d1 == *d2 && same_exprs(a1, a2) && same_opt_expr(p1, p2),
        (
            LogicalExpr::ScalarFunction { name: n1, args: a1 },
            LogicalExpr::ScalarFunction { name: n2, args: a2 },
        ) => *n1 == *n2 && same_exprs(a1, a2),
        (
            LogicalExpr::Alias { expr: e1, alias: a1 },
            LogicalExpr::Alias { expr: e2, alias: a2 },
        ) => *a1 == *a2 && same_expr(e1, e2),
        (
            LogicalExpr::Case { base: b1, when_then: w1, else_expr: e1 },
            LogicalExpr::Case { base: b2, when_then: w2, else_expr: e2 },
        ) => same_opt_expr(b1, b2) && same_pairs(w1, w2) && same_opt_expr(e1, e2),
        (
            LogicalExpr::InList { expr: e1, list: l1, negated: n1 },
            LogicalExpr::InList { expr: e2, list: l2, negated: n2 },
        ) => *n1 == *n2 && same_expr(e1, e2) && same_exprs(l1, l2),
        (
            LogicalExpr::InSubquery { expr: e1, subquery: s1, negated: n1 },
            LogicalExpr::InSubquery { expr: e2, subquery: s2, negated: n2 },
        ) => *n1 == *n2 && same_expr(e1, e2) && same_plan(s1, s2),
        (
            LogicalExpr::Exists { subquery: s1, negated: n1 },
            LogicalExpr::Exists { subquery: s2, negated: n2 },
        ) => *n1 == *n2 && same_plan(s1, s2),
        (LogicalExpr::ScalarSubquery(s1), LogicalExpr::ScalarSubquery(s2)) => same_plan(s1, s2),
        (
            LogicalExpr::IsNull { expr: e1, negated: n1 },
            LogicalExpr::IsNull { expr: e2, negated: n2 },
        ) => *n1 == *n2 && same_expr(e1, e2),
        (
            LogicalExpr::Between { expr: e1, low: l1, high: h1, negated: n1 },
            LogicalExpr::Between { expr: e2, low: l2, high: h2, negated: n2 },
        ) => *n1 == *n2 && same_expr(e1, e2) && same_expr(l1, l2) && same_expr(h1, h2),
        (
            LogicalExpr::Like { expr: e1, pattern: p1, escape: c1, negated: n1 },
            LogicalExpr::Like { expr: e2, pattern: p2, escape: c2, negated: n2 },
        ) => *n1 == *n2 && same_opt_text(c1, c2) && same_expr(e1, e2) && same_expr(p1, p2),
        (
            LogicalExpr::Cast { expr: e1, cast_type: t1 },
            LogicalExpr::Cast { expr: e2, cast_type: t2 },
        ) => same_opt_text(t1, t2) && same_expr(e1, e2),
        _ => false,
    }
}

/// Whether two plans are the same.
pub fn same_plan(a: &LogicalPlan, b: &LogicalPlan) -> (r: bool)
    ensures
        r == (a.view() == b.view()),
    decreases a,
{
    match (a, b) {
        (
            LogicalPlan::Projection { input: i1, exprs: e1, schema: s1 },
            LogicalPlan::Projection { input: i2, exprs: e2, schema: s2 },
        ) => same_plan(i1, i2) && same_exprs(e1, e2) && s1.same(s2),
        (
            LogicalPlan::Filter { input: i1, predicate: p1 },
            LogicalPlan::Filter { input: i2, predicate: p2 },
        ) => same_plan(i1, i2) && same_expr(p1, p2),
        (
            LogicalPlan::Aggregate { input: i1, group_expr: g1, aggr_expr: a1, schema: s1 },
            LogicalPlan::Aggregate { input: i2, group_expr: g2, aggr_expr: a2, schema: s2 },
        ) => same_plan(i1, i2) && same_exprs(g1, g2) && same_exprs(a1, a2) && s1.same(s2),
        (
            LogicalPlan::Join { left: l1, right: r1, join_type: t1, on: o1, filter: f1, schema: s1 },
            LogicalPlan::Join { left: l2, right: r2, join_type: t2, on: o2, filter: f2, schema: s2 },
        ) => *t1 == *t2 && same_plan(l1, l2) && same_plan(r1, r2) && same_pairs(o1, o2)
            && same_opt_expr(f1, f2) && s1.same(s2),
        (
            LogicalPlan::Sort { input: i1, exprs: e1 },
            LogicalPlan::Sort { input: i2, exprs: e2 },
        ) => same_plan(i1, i2) && same_exprs(e1, e2),
        (
            LogicalPlan::Limit { input: i1, fetch: f1 },
            LogicalPlan::Limit { input: i2, fetch: f2 },
        ) => same_count(f1, f2) && same_plan(i1, i2),
        (
            LogicalPlan::TableScan { table_name: n1, schema: s1 },
            LogicalPlan::TableScan { table_name: n2, schema: s2 },
        ) => *n1 == *n2 && s1.same(s2),
        (
            LogicalPlan::Union { inputs: i1, all: a1, schema: s1 },
            LogicalPlan::Union { inputs: i2, all: a2, schema: s2 },
        ) => *a1 == *a2 && same_plans(i1, i2) && s1.same(s2),
        (LogicalPlan::Distinct { input: i1 }, LogicalPlan::Distinct { input: i2 }) => same_plan(
            i1,
            i2,
        ),
        (
            LogicalPlan::EmptyRelation { produce_one_row: p1, schema: s1 },
            LogicalPlan::EmptyRelation { produce_one_row: p2, schema: s2 },
        ) => *p1 == *p2 && s1.same(s2),
        (
            LogicalPlan::Values { rows: r1, schema: s1 },
            LogicalPlan::Values { rows: r2, schema: s2 },
        ) => same_rows(r1, r2) && s1.same(s2),
        (
            LogicalPlan::WithCTE { ctes: c1, body: b1 },
            LogicalPlan::WithCTE { ctes: c2, body: b2 },
        ) => same_named_plans(c1, c2) && same_plan(b1, b2),
        (
            LogicalPlan::CTERef { name: n1, schema: s1 },
            LogicalPlan::CTERef { name: n2, schema: s2 },
        ) => *n1 == *n2 && s1.same(s2),
        (
            LogicalPlan::RecursiveCTE {
                name: n1,
                base_case: b1,
                recursive_step: r1,
                union_all: u1,
                max_iterations: m1,
                schema: s1,
            },
            LogicalPlan::RecursiveCTE {
                name: n2,
                base_case: b2,
                recursive_step: r2,
                union_all: u2,
                max_iterations: m2,
                schema: s2,
            },
        ) => *n1 == *n2 && *u1 == *u2 && same_count(m1, m2) && same_plan(b1, b2) && same_plan(
            r1,
            r2,
        ) && s1.same(s2),
        (
            LogicalPlan::RecursiveCTERef { name: n1, schema: s1 },
            LogicalPlan::RecursiveCTERef { name: n2, schema: s2 },
        ) => *n1 == *n2 && s1.same(s2),
        _ => false,
    }
}

/// Whether a column answers to a name, perhaps qualified by a table, an alias, or a database and
/// a table with a dot between them.
pub open spec fn answers_to(name: Seq<char>, table: Option<Seq<char>>) -> spec_fn(
    ColumnInfoView,
) -> bool {
    |c: ColumnInfoView|
        c.name == name && (match table {
            None => true,
            Some(t) => match first_dot(t) {
                Some(i) => c.database == Some(t.take(i)) && c.table == Some(t.skip(i + 1)),
                None => c.table_alias == Some(t) || c.table == Some(t),
            },
        })
}

/// The position of the first column that answers to a name.
pub open spec fn column_position(
    schema: Seq<ColumnInfoView>,
    name: Seq<char>,
    table: Option<Seq<char>>,
) -> Option<int> {
    first_where(schema, answers_to(name, table))
}

fn is_text(s: &Option<String>, t: &str) -> (r: bool)
    ensures
        r == (text_view(*s) == Some(t@)),
{
    match s {
        Some(x) => same_text(x.as_str(), t),
        None => false,
    }
}

/// A position as an integer.
pub open spec fn position_view(p: Option<usize>) -> Option<int> {
    match p {
        Some(i) => Some(i as int),
        None => None,
    }
}

impl LogicalSchema {
    /// The position of the first column that answers to a reference.
    pub fn find_column(&self, col: &Column) -> (r: Option<usize>)
        ensures
            position_view(r) == column_position(self@, col@.name, col@.table),
            r is Some ==> r->Some_0 < self.columns@.len(),
    {
        let ghost p = answers_to(col@.name, col@.table);
        let mut i: usize = 0;
        while i < self.columns.len()
            invariant
                i <= self.columns.len(),
                p == answers_to(col@.name, col@.table),
                forall|j: int| 0 <= j < i ==> !p(#[trigger] self@[j]),
            decreases self.columns.len() - i,
        {
            let c = &self.columns[i];
            assert(self@[i as int] == c@);
            let qualified = match &col.table {
                None => true,
                Some(t) => match find_dot(t.as_str()) {
                    Some(at) => {
                        let n: usize = t.as_str().unicode_len();
                        let db = t.as_str().substring_char(0, at);
                        let tbl = t.as_str().substring_char(at + 1, n);
                        assert(t@.subrange(0, at as int) =~= t@.take(at as int));
                        assert(t@.subrange(at + 1, n as int) =~= t@.skip(at + 1));
                        is_text(&c.database, db) && is_text(&c.table, tbl)
                    },
                    None => is_text(&c.table_alias, t.as_str()) || is_text(&c.table, t.as_str()),
                },
            };
            if qualified && c.name == col.name {
                proof {
                    lemma_is_first_where(self@, p, i as int);
                }
                return Some(i);
            }
            i += 1;
        }
        proof {
            lemma_none_where(self@, p);
        }
        None
    }
}

/// The columns that a plan puts out.
pub open spec fn schema_of(plan: PlanView) -> Seq<ColumnInfoView>
    decreases plan,
{
    match plan {
        PlanView::Projection { schema, .. } => schema,
        PlanView::Filter { input, .. } => schema_of(*input),
        PlanView::Aggregate { schema, .. } => schema,
        PlanView::Join { schema, .. } => schema,
        PlanView::Sort { input, .. } => schema_of(*input),
        PlanView::Limit { input, .. } => schema_of(*input),
        PlanView::TableScan { schema, .. } => schema,
        PlanView::Union { schema, .. } => schema,
        PlanView::Distinct { input } => schema_of(*input),
        PlanView::EmptyRelation { schema, .. } => schema,
        PlanView::Values { schema, .. } => schema,
        PlanView::WithCTE { body, .. } => schema_of(*body),
        PlanView::CTERef { schema, .. } => schema,
        PlanView::RecursiveCTE { schema, .. } => schema,
        PlanView::RecursiveCTERef { schema, .. } => schema,
    }
}

impl LogicalPlan {
    /// The columns that the plan puts out.
    pub fn schema(&self) -> (r: &LogicalSchema)
        ensures
            r@ == schema_of(self.view()),
        decreases self,
    {
        match self {
            LogicalPlan::Projection { schema, .. } => schema,
            LogicalPlan::Filter { input, .. } => input.schema(),
            LogicalPlan::Aggregate { schema, .. } => schema,
            LogicalPlan::Join { schema, .. } => schema,
            LogicalPlan::Sort { input, .. } => input.schema(),
            LogicalPlan::Limit { input, .. } => input.schema(),
            LogicalPlan::TableScan { schema, .. } => schema,
            LogicalPlan::Union { schema, .. } => schema,
            LogicalPlan::Distinct { input } => input.schema(),
            LogicalPlan::EmptyRelation { schema, .. } => schema,
            LogicalPlan::Values { schema, .. } => schema,
            LogicalPlan::WithCTE { body, .. } => body.schema(),
            LogicalPlan::CTERef { schema, .. } => schema,
            LogicalPlan::RecursiveCTE { schema, .. } => schema,
            LogicalPlan::RecursiveCTERef { schema, .. } => schema,
        }
    }
}

/// A reference names the first column that has its name and, where it is qualified, whose table or
/// alias is the qualifier; with a dot in the qualifier, whose database is what stands before the first
/// dot and whose table is what stands after it.
pub proof fn law_a_reference_names_the_first_column_that_fits(
    schema: Seq<ColumnInfoView>,
    name: Seq<char>,
    table: Option<Seq<char>>,
    i: int,
)
    ensures
        ({
            let fits = |c: ColumnInfoView|
                c.name == name && match table {
                    None => true,
                    Some(t) => if t.contains('.') {
                        exists|k: int|
                            {
                                &&& 0 <= k < t.len()
                                &&& #[trigger] t[k] == '.'
                                &&& forall|m: int| 0 <= m < k ==> #[trigger] t[m] != '.'
                                &&& c.database == Some(t.take(k))
                                &&& c.table == Some(t.skip(k + 1))
                            }
                    } else {
                        c.table_alias == Some(t) || c.table == Some(t)
                    },
                };
            column_position(schema, name, table) == Some(i) <==> {
                &&& 0 <= i < schema.len()
                &&& fits(schema[i])
                &&& forall|j: int| 0 <= j < i ==> !fits(#[trigger] schema[j])
            }
        }),
{
    let p = answers_to(name, table);
    let fits = |c: ColumnInfoView|
        c.name == name && match table {
            None => true,
            Some(t) => if t.contains('.') {
                exists|k: int|
                    {
                        &&& 0 <= k < t.len()
                        &&& #[trigger] t[k] == '.'
                        &&& forall|m: int| 0 <= m < k ==> #[trigger] t[m] != '.'
                        &&& c.database == Some(t.take(k))
                        &&& c.table == Some(t.skip(k + 1))
                    }
            } else {
                c.table_alias == Some(t) || c.table == Some(t)
            },
        };
    assert forall|c: ColumnInfoView| #[trigger] p(c) == fits(c) by {
        if let Some(t) = table {
            lemma_first_where(t, is_dot());
            match first_dot(t) {
                Some(d) => {
                    assert(t[d] == '.');
                    assert forall|m: int| 0 <= m < d implies #[trigger] t[m] != '.' by {
                        assert(!is_dot()(t[m]));
                    }
                    if fits(c) {
                        let k = choose|k: int|
                            {
                                &&& 0 <= k < t.len()
                                &&& #[trigger] t[k] == '.'
                                &&& forall|m: int| 0 <= m < k ==> #[trigger] t[m] != '.'
                                &&& c.database == Some(t.take(k))
                                &&& c.table == Some(t.skip(k + 1))
                            };
                        if k < d {
                            assert(t[k] != '.');
                        } else if d < k {
                            assert(t[d] != '.');
                        }
                    }
                },
                None => {
                    if t.contains('.') {
                        let k = choose|k: int| 0 <= k < t.len() && t[k] == '.';
                        assert(!is_dot()(t[k]));
                    }
                },
            }
        }
    }
    lemma_first_where(schema, p);
    if 0 <= i < schema.len() && fits(schema[i]) && forall|j: int|
        0 <= j < i ==> !fits(#[trigger] schema[j]) {
        lemma_is_first_where(schema, p, i);
    }
}

} // verus!
