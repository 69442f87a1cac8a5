//! Inlining of named plans.

use vstd::prelude::*;

use crate::error::{ErrorView, LimboError};
use crate::logical::{
    lemma_named_plan_views, lemma_plan_views, named_plan_views, plan_views, ColumnInfoView,
    LogicalPlan, PlanView,
};
use crate::names::NameIndex;
use crate::plan::{copy_expr, copy_exprs, copy_opt_expr, copy_pairs, copy_plan};

verus! {

/// Plans by name.
pub type Scope = Map<Seq<char>, PlanView>;

pub open spec fn missing_cte(name: Seq<char>) -> ErrorView {
    ErrorView::ParseError("CTE '"@ + name + "' not found"@)
}

/// A plan with the named plans that it refers to in place of the references. A name stands for the
/// innermost plan of that name; named plans may refer to those named before them.
pub open spec fn inlined(plan: PlanView, scope: Scope) -> Result<PlanView, ErrorView>
    decreases plan,
{
    match plan {
        PlanView::Projection { input, exprs, schema } => match inlined(*input, scope) {
            Ok(p) => Ok(PlanView::Projection { input: Box::new(p), exprs, schema }),
            Err(e) => Err(e),
        },
        PlanView::Filter { input, predicate } => match inlined(*input, scope) {
            Ok(p) => Ok(PlanView::Filter { input: Box::new(p), predicate }),
            Err(e) => Err(e),
        },
        PlanView::Aggregate { input, group_expr, aggr_expr, schema } => match inlined(
            *input,
            scope,
        ) {
            Ok(p) => Ok(
                PlanView::Aggregate { input: Box::new(p), group_expr, aggr_expr, schema },
            ),
            Err(e) => Err(e),
        },
        PlanView::Join { left, right, join_type, on, filter, schema } => match (
            inlined(*left, scope),
            inlined(*right, scope),
        ) {
            (Err(e), _) => Err(e),
            (_, Err(e)) => Err(e),
            (Ok(l), Ok(r)) => Ok(
                PlanView::Join {
                    left: Box::new(l),
                    right: Box::new(r),
                    join_type,
                    on,
                    filter,
                    schema,
                },
            ),
        },
        PlanView::Sort { input, exprs } => match inlined(*input, scope) {
            Ok(p) => Ok(PlanView::Sort { input: Box::new(p), exprs }),
            Err(e) => Err(e),
        },
        PlanView::Limit { input, fetch } => match inlined(*input, scope) {
            Ok(p) => Ok(PlanView::Limit { input: Box::new(p), fetch }),
            Err(e) => Err(e),
        },
        PlanView::Union { inputs, all, schema } => match inlined_list(inputs, scope) {
            Ok(list) => Ok(PlanView::Union { inputs: list, all, schema }),
            Err(e) => Err(e),
        },
        PlanView::Distinct { input } => match inlined(*input, scope) {
            Ok(p) => Ok(PlanView::Distinct { input: Box::new(p) }),
            Err(e) => Err(e),
        },
        PlanView::WithCTE { ctes, body } => match scope_with(ctes, scope) {
            Ok(inner) => inlined(*body, inner),
            Err(e) => Err(e),
        },
        PlanView::CTERef { name, schema: _ } => if scope.dom().contains(name) {
            Ok(scope[name])
        } else {
            Err(missing_cte(name))
        },
        PlanView::RecursiveCTE {
            name,
            base_case,
            recursive_step,
            union_all,
            max_iterations,
            schema,
        } => match (inlined(*base_case, scope), inlined(*recursive_step, scope)) {
            (Err(e), _) => Err(e),
            (_, Err(e)) => Err(e),
            (Ok(b), Ok(s)) => Ok(
                PlanView::RecursiveCTE {
                    name,
                    base_case: Box::new(b),
                    recursive_step: Box::new(s),
                    union_all,
                    max_iterations,
                    schema,
                },
            ),
        },
        _ => Ok(plan),
    }
}

pub open spec fn inlined_list(list: Seq<PlanView>, scope: Scope) -> Result<Seq<PlanView>, ErrorView>
    decreases list,
{
    if list.len() == 0 {
        Ok(Seq::empty())
    } else {
        match (inlined_list(list.drop_last(), scope), inlined(list.last(), scope)) {
            (Err(e), _) => Err(e),
            (_, Err(e)) => Err(e),
            (Ok(front), Ok(last)) => Ok(front.push(last)),
        }
    }
}

/// The names in scope once some more plans have been named.
pub open spec fn scope_with(ctes: Seq<(Seq<char>, PlanView)>, scope: Scope) -> Result<
    Scope,
    ErrorView,
>
    decreases ctes,
{
    if ctes.len() == 0 {
        Ok(scope)
    } else {
        match scope_with(ctes.drop_last(), scope) {
            Err(e) => Err(e),
            Ok(before) => match inlined(ctes.last().1, before) {
                Err(e) => Err(e),
                Ok(p) => Ok(before.insert(ctes.last().0, p)),
            },
        }
    }
}

proof fn lemma_inlined_list_prefix(list: Seq<PlanView>, scope: Scope, n: int)
    requires
        0 <= n <= list.len(),
        inlined_list(list.take(n), scope) is Err,
    ensures
        inlined_list(list, scope) == inlined_list(list.take(n), scope),
    decreases list.len() - n,
{
    if n == list.len() {
        assert(list.take(n) =~= list);
    } else {
        assert(list.take(n + 1).drop_last() =~= list.take(n));
        lemma_inlined_list_prefix(list, scope, n + 1);
    }
}

proof fn lemma_scope_with_prefix(ctes: Seq<(Seq<char>, PlanView)>, scope: Scope, n: int)
    requires
        0 <= n <= ctes.len(),
        scope_with(ctes.take(n), scope) is Err,
    ensures
        scope_with(ctes, scope) == scope_with(ctes.take(n), scope),
    decreases ctes.len() - n,
{
    if n == ctes.len() {
        assert(ctes.take(n) =~= ctes);
    } else {
        assert(ctes.take(n + 1).drop_last() =~= ctes.take(n));
        lemma_scope_with_prefix(ctes, scope, n + 1);
    }
}

/// The plans that are in scope: `names` gives the position of each in `plans`.
struct Names {
    names: NameIndex,
    plans: Vec<LogicalPlan>,
}

impl Names {
    spec fn wf(&self) -> bool {
        forall|n: Seq<char>| #[trigger]
            self.names@.dom().contains(n) ==> self.names@[n] < self.plans@.len()
    }

    spec fn scope(&self) -> Scope {
        Map::new(
            |n: Seq<char>| self.names@.dom().contains(n),
            |n: Seq<char>| self.plans@[self.names@[n] as int].view(),
        )
    }

    fn copy(&self) -> (r: Self)
        requires
            self.wf(),
        ensures
            r.wf(),
            r.scope() == self.scope(),
    {
        let mut plans: Vec<LogicalPlan> = Vec::new();
        let mut i: usize = 0;
        while i < self.plans.len()
            invariant
                i <= self.plans.len(),
                plans@.len() == i,
                forall|j: int| 0 <= j < i ==> (#[trigger] plans@[j]).view() == self.plans@[j].view(),
            decreases self.plans.len() - i,
        {
            plans.push(copy_plan(&self.plans[i]));
            i += 1;
        }
        let r = Names { names: self.names.clone(), plans };
        assert(r.scope() =~= self.scope());
        r
    }

    fn bind(&mut self, name: String, plan: LogicalPlan)
        requires
            old(self).wf(),
        ensures
            final(self).wf(),
            final(self).scope() == old(self).scope().insert(name@, plan.view()),
    {
        let at: usize = self.plans.len();
        let ghost v = plan.view();
        let ghost n = name@;
        self.plans.push(plan);
        self.names.insert(name, at);
        assert(self.scope() =~= old(self).scope().insert(n, v));
    }
}

spec fn outcome(r: Result<LogicalPlan, LimboError>) -> Result<PlanView, ErrorView> {
    match r {
        Ok(p) => Ok(p.view()),
        Err(e) => Err(e@),
    }
}

fn inline(plan: &LogicalPlan, scope: &Names) -> (r: Result<LogicalPlan, LimboError>)
    requires
        scope.wf(),
    ensures
        outcome(r) == inlined(plan.view(), scope.scope()),
    decreases plan,
{
    proof {
        reveal_with_fuel(LogicalPlan::view, 2);
    }
    match plan {
        LogicalPlan::Projection { input, exprs, schema } => match inline(input, scope) {
            Ok(p) => Ok(
                LogicalPlan::Projection {
                    input: Box::new(p),
                    exprs: copy_exprs(exprs),
                    schema: schema.clone(),
                },
            ),
            Err(e) => Err(e),
        },
        LogicalPlan::Filter { input, predicate } => match inline(input, scope) {
            Ok(p) => Ok(
                LogicalPlan::Filter {
                    input: Box::new(p),
                    predicate: copy_expr(predicate),
                },
            ),
            Err(e) => Err(e),
        },
        LogicalPlan::Aggregate { input, group_expr, aggr_expr, schema } => match inline(
            input,
            scope,
        ) {
            Ok(p) => Ok(
                LogicalPlan::Aggregate {
                    input: Box::new(p),
                    group_expr: copy_exprs(group_expr),
                    aggr_expr: copy_exprs(aggr_expr),
                    schema: schema.clone(),
                },
            ),
            Err(e) => Err(e),
        },
        LogicalPlan::Join { left, right, join_type, on, filter, schema } => {
            let l = match inline(left, scope) {
                Ok(p) => p,
                Err(e) => return Err(e),
            };
            match inline(right, scope) {
                Ok(r) => Ok(
                    LogicalPlan::Join {
                        left: Box::new(l),
                        right: Box::new(r),
                        join_type: *join_type,
                        on: copy_pairs(on),
                        filter: copy_opt_expr(filter),
                        schema: schema.clone(),
                    },
                ),
                Err(e) => Err(e),
            }
        },
        LogicalPlan::Sort { input, exprs } => match inline(input, scope) {
            Ok(p) => Ok(LogicalPlan::Sort { input: Box::new(p), exprs: copy_exprs(exprs) }),
            Err(e) => Err(e),
        },
        LogicalPlan::Limit { input, fetch } => match inline(input, scope) {
            Ok(p) => Ok(LogicalPlan::Limit { input: Box::new(p), fetch: *fetch }),
            Err(e) => Err(e),
        },
        LogicalPlan::Union { inputs, all, schema } => {
            let ghost views = plan_views(inputs@);
            let mut list: Vec<LogicalPlan> = Vec::new();
            let mut i: usize = 0;
            proof {
                lemma_plan_views(inputs@);
                lemma_plan_views(list@);
                assert(views.take(0) =~= Seq::<PlanView>::empty());
                assert(plan_views(list@) =~= Seq::<PlanView>::empty());
            }
            while i < inputs.len()
                invariant
                    i <= inputs.len(),
                    scope.wf(),
                    views == plan_views(inputs@),
                    views.len() == inputs@.len(),
                    plan is Union && plan->Union_inputs == *inputs,
                    plan.view() is Union && plan.view()->Union_inputs == views,
                    inlined_list(views.take(i as int), scope.scope()) == Ok::<
                        Seq<PlanView>,
                        ErrorView,
                    >(plan_views(list@)),
                decreases inputs.len() - i,
            {
                proof {
                    lemma_plan_views(inputs@);
                    assert(views.take(i + 1).drop_last() =~= views.take(i as int));
                    assert(views.take(i + 1).last() == inputs@[i as int].view());
                    assert(decreases_to!(inputs => inputs@[i as int]));
                }
                match inline(&inputs[i], scope) {
                    Ok(p) => {
                        let ghost before = list@;
                        list.push(p);
                        proof {
                            lemma_plan_views(before);
                            lemma_plan_views(list@);
                            assert(plan_views(list@) =~= plan_views(before).push(p.view()));
                        }
                    },
                    Err(e) => {
                        proof {
                            lemma_inlined_list_prefix(views, scope.scope(), i + 1);
                        }
                        return Err(e);
                    },
                }
                i += 1;
            }
            assert(views.take(i as int) =~= views);
            Ok(LogicalPlan::Union { inputs: list, all: *all, schema: schema.clone() })
        },
        LogicalPlan::Distinct { input } => match inline(input, scope) {
            Ok(p) => Ok(LogicalPlan::Distinct { input: Box::new(p) }),
            Err(e) => Err(e),
        },
        LogicalPlan::WithCTE { ctes, body } => {
            let ghost views = named_plan_views(ctes@);
            let mut inner = scope.copy();
            let mut i: usize = 0;
            proof {
                lemma_named_plan_views(ctes@);
                assert(views.take(0) =~= Seq::<(Seq<char>, PlanView)>::empty());
            }
            while i < ctes.len()
                invariant
                    i <= ctes.len(),
                    inner.wf(),
                    views == named_plan_views(ctes@),
                    views.len() == ctes@.len(),
                    plan is WithCTE && plan->WithCTE_ctes == *ctes,
                    plan.view() is WithCTE && plan.view()->WithCTE_ctes == views,
                    scope_with(views.take(i as int), scope.scope()) == Ok::<Scope, ErrorView>(
                        inner.scope(),
                    ),
                decreases ctes.len() - i,
            {
                proof {
                    lemma_named_plan_views(ctes@);
                    assert(views.take(i + 1).drop_last() =~= views.take(i as int));
                    assert(views.take(i + 1).last() == (
                        ctes@[i as int].0@,
                        ctes@[i as int].1.view(),
                    ));
                    assert(decreases_to!(ctes => ctes@[i as int]));
                    assert(decreases_to!(ctes@[i as int] => ctes@[i as int].1));
                }
                match inline(&ctes[i].1, &inner) {
                    Ok(p) => {
                        inner.bind(ctes[i].0.clone(), p);
                    },
                    Err(e) => {
                        proof {
                            lemma_scope_with_prefix(views, scope.scope(), i + 1);
                        }
                        return Err(e);
                    },
                }
                i += 1;
            }
            assert(views.take(i as int) =~= views);
            inline(body, &inner)
        },
        LogicalPlan::CTERef { name, schema: _ } => match scope.names.get(name.as_str()) {
            Some(at) => {
                assert(scope.names@.dom().contains(name@));
                Ok(copy_plan(&scope.plans[at]))
            },
            None => {
                let mut m = "CTE '".to_owned();
                m.append(name.as_str());
                m.append("' not found");
                Err(LimboError::ParseError(m))
            },
        },
        LogicalPlan::RecursiveCTE {
            name,
            base_case,
            recursive_step,
            union_all,
            max_iterations,
            schema,
        } => {
            let base = match inline(base_case, scope) {
                Ok(p) => p,
                Err(e) => return Err(e),
            };
            match inline(recursive_step, scope) {
                Ok(step) => Ok(
                    LogicalPlan::RecursiveCTE {
                        name: name.clone(),
                        base_case: Box::new(base),
                        recursive_step: Box::new(step),
                        union_all: *union_all,
                        max_iterations: *max_iterations,
                        schema: schema.clone(),
                    },
                ),
                Err(e) => Err(e),
            }
        },
        _ => Ok(copy_plan(plan)),
    }
}

/// The scope in which nothing is named.
pub open spec fn empty_scope() -> Scope {
    Map::empty()
}

impl LogicalPlan {
    /// The plan with the named plans in place of the references to them.
    pub fn inline_ctes(&self) -> (r: Result<LogicalPlan, LimboError>)
        ensures
            match inlined(self.view(), empty_scope()) {
                Ok(p) => r matches Ok(plan) && plan.view() == p,
                Err(e) => r matches Err(err) && err@ == e,
            },
    {
        let scope = Names { names: NameIndex::new(), plans: Vec::new() };
        assert(scope.scope() =~= empty_scope());
        inline(self, &scope)
    }
}

// What inlining comes to.

/// The plan that a name stands for is the last that is given that name: a reference to it becomes
/// that plan as it stands after those named before it, and a reference to any other name becomes what
/// it would have become without it. Outside all of them a name stands for what is in scope.
pub proof fn law_a_name_stands_for_the_last_plan_of_that_name(
    ctes: Seq<(Seq<char>, PlanView)>,
    name: Seq<char>,
    named: PlanView,
    schema: Seq<ColumnInfoView>,
    other: PlanView,
    scope: Scope,
)
    requires
        other is CTERef,
        other->CTERef_name != name,
        inlined(
            PlanView::WithCTE { ctes, body: Box::new(named) },
            scope,
        ) is Ok,
    ensures
        inlined(
            PlanView::WithCTE {
                ctes: ctes.push((name, named)),
                body: Box::new(PlanView::CTERef { name, schema }),
            },
            scope,
        ) == inlined(PlanView::WithCTE { ctes, body: Box::new(named) }, scope),
        inlined(
            PlanView::WithCTE { ctes: ctes.push((name, named)), body: Box::new(other) },
            scope,
        ) == inlined(PlanView::WithCTE { ctes, body: Box::new(other) }, scope),
        inlined(
            PlanView::WithCTE { ctes: Seq::empty(), body: Box::new(other) },
            scope,
        ) == (if scope.dom().contains(other->CTERef_name) {
            Ok(scope[other->CTERef_name])
        } else {
            Err(ErrorView::ParseError("CTE '"@ + other->CTERef_name + "' not found"@))
        }),
{
    let more = ctes.push((name, named));
    assert(more.drop_last() =~= ctes);
    reveal_with_fuel(inlined, 2);
    let before = scope_with(ctes, scope)->Ok_0;
    assert(scope_with(more, scope) == Ok::<Scope, ErrorView>(
        before.insert(name, inlined(named, before)->Ok_0),
    ));
}

/// Inlining leaves the operators of a plan as they are and in their places: below each of them stand
/// the plans that stood there, inlined.
pub proof fn law_inlining_keeps_the_operators(plan: PlanView, scope: Scope)
    requires
        inlined(plan, scope) is Ok,
    ensures
        match (plan, inlined(plan, scope)->Ok_0) {
            (
                PlanView::Projection { input, exprs, schema },
                PlanView::Projection { input: i, exprs: e, schema: s },
            ) => inlined(*input, scope) == Ok::<PlanView, ErrorView>(*i) && e == exprs && s
                == schema,
            (
                PlanView::Filter { input, predicate },
                PlanView::Filter { input: i, predicate: p },
            ) => inlined(*input, scope) == Ok::<PlanView, ErrorView>(*i) && p == predicate,
            (
                PlanView::Aggregate { input, group_expr, aggr_expr, schema },
                PlanView::Aggregate { input: i, group_expr: g, aggr_expr: a, schema: s },
            ) => inlined(*input, scope) == Ok::<PlanView, ErrorView>(*i) && g == group_expr && a
                == aggr_expr && s == schema,
            (
                PlanView::Join { left, right, join_type, on, filter, schema },
                PlanView::Join {
                    left: l,
                    right: r,
                    join_type: j,
                    on: o,
                    filter: f,
                    schema: s,
                },
            ) => {
                &&& inlined(*left, scope) == Ok::<PlanView, ErrorView>(*l)
                &&& inlined(*right, scope) == Ok::<PlanView, ErrorView>(*r)
                &&& j == join_type && o == on && f == filter && s == schema
            },
            (
                PlanView::Sort { input, exprs },
                PlanView::Sort { input: i, exprs: e },
            ) => inlined(*input, scope) == Ok::<PlanView, ErrorView>(*i) && e == exprs,
            (
                PlanView::Limit { input, fetch },
                PlanView::Limit { input: i, fetch: f },
            ) => inlined(*input, scope) == Ok::<PlanView, ErrorView>(*i) && f == fetch,
            (
                PlanView::Union { inputs, all, schema },
                PlanView::Union { inputs: list, all: a, schema: s },
            ) => {
                &&& list.len() == inputs.len()
                &&& forall|k: int|
                    0 <= k < inputs.len() ==> inlined(#[trigger] inputs[k], scope) == Ok::<
                        PlanView,
                        ErrorView,
                    >(list[k])
                &&& a == all && s == schema
            },
            (PlanView::Distinct { input }, PlanView::Distinct { input: i }) => inlined(
                *input,
                scope,
            ) == Ok::<PlanView, ErrorView>(*i),
            (
                PlanView::RecursiveCTE {
                    name,
                    base_case,
                    recursive_step,
                    union_all,
                    max_iterations,
                    schema,
                },
                PlanView::RecursiveCTE {
                    name: n,
                    base_case: b,
                    recursive_step: r,
                    union_all: u,
                    max_iterations: m,
                    schema: s,
                },
            ) => {
                &&& inlined(*base_case, scope) == Ok::<PlanView, ErrorView>(*b)
                &&& inlined(*recursive_step, scope) == Ok::<PlanView, ErrorView>(*r)
                &&& n == name && u == union_all && m == max_iterations && s == schema
            },
            (PlanView::WithCTE { .. }, _) => true,
            (PlanView::CTERef { name, .. }, p) => scope.dom().contains(name) && p == scope[name],
            (_, p) => p == plan && !(plan is Projection) && !(plan is Filter) && !(
            plan is Aggregate) && !(plan is Join) && !(plan is Sort) && !(plan is Limit) && !(
            plan is Union) && !(plan is Distinct) && !(plan is RecursiveCTE),
        },
{
    if let PlanView::Union { inputs, .. } = plan {
        lemma_inlined_list(inputs, scope);
    }
}

proof fn lemma_inlined_list(list: Seq<PlanView>, scope: Scope)
    requires
        inlined_list(list, scope) is Ok,
    ensures
        inlined_list(list, scope)->Ok_0.len() == list.len(),
        forall|k: int|
            0 <= k < list.len() ==> inlined(#[trigger] list[k], scope) == Ok::<
                PlanView,
                ErrorView,
            >(inlined_list(list, scope)->Ok_0[k]),
    decreases list.len(),
{
    if list.len() > 0 {
        let front = list.drop_last();
        lemma_inlined_list(front, scope);
        let all = inlined_list(list, scope)->Ok_0;
        let some = inlined_list(front, scope)->Ok_0;
        assert forall|k: int| 0 <= k < list.len() implies inlined(#[trigger] list[k], scope)
            == Ok::<PlanView, ErrorView>(all[k]) by {
            if k < front.len() {
                assert(front[k] == list[k]);
                assert(all[k] == some[k]);
            }
        }
    }
}

} // verus!
