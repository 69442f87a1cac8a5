//! What plans answer, and that the circuits that they are compiled to let the same rows through.

use vstd::prelude::*;

use crate::aggregate::{
    aggregate_built, aggregate_of, aggregates_of, clash, clashing_column, distinct_built,
    filters_of, first_clash, function_column, functions_of, group_key, group_keys, key_positions,
    Aggregates,
};
use crate::ast::{BinaryOperator, ExprView};
use crate::builder::{
    added, compiled_list, filter_built, filter_node_built, narrowing, passthroughs, projection_built,
    temp_column, temp_name, widening, Built,
};
use crate::circuit::{ExecutableView, NodeView, MAX_NODES};
use crate::compiler::{
    compiled_plan, extends, is_literal, lemma_join_extends, relation_rows, source_identifier,
    union_node, value_rows, Compiled,
};
use crate::error::ErrorView;
use crate::expr::{compiled_of, passthrough, CompiledView};
use crate::filter::{
    bare_column, columns_resolve, extracted, filter_names, filter_of, filter_position,
    is_comparison, is_connective, is_simple, needs_projection, replaced,
};
use crate::flow::{
    call_read, calls_read, either, equalities_meet, filtered, found_alike, holds,
    law_a_join_lets_through_the_pairs_that_meet_its_condition,
    law_a_predicate_passes_where_its_expression_holds, lemma_found_in_front, lemma_rows_out_stay, listed, operand, passes, projected, rows_out, Call, Flow,
    Kind, Rows, Tests,
};
use crate::join::join_built;
use crate::logical::{AggFunc, ColumnInfoView, LogicalExprView, LogicalJoinType, PlanView};
use crate::plan::{column_position, schema_of};
use crate::sense::{
    law_a_compiled_expression_has_the_value_of_its_expression, sensible, tree_value, value_on,
    Sense,
};
use crate::seqs::{first_where, lemma_first_where};
use crate::value::{int_datum, Datum, NumericView};

verus! {

// Filters.

/// The value of one side of a comparison on a row.
pub open spec fn operand_on(
    e: LogicalExprView,
    schema: Seq<ColumnInfoView>,
    row: Seq<Datum>,
    s: Sense,
) -> Datum {
    if e is Column || e is Literal {
        operand(e, schema, row)
    } else {
        value_on(e, schema, row, s)
    }
}

/// Whether a predicate is true on a row: a comparison of any two expressions, a NULL test of a
/// column, a connection of predicates, or any other expression whose value is 1.
pub open spec fn true_on(
    e: LogicalExprView,
    schema: Seq<ColumnInfoView>,
    row: Seq<Datum>,
    t: Tests,
    s: Sense,
) -> bool
    decreases e,
{
    match e {
        LogicalExprView::BinaryExpr { left, op, right } => if op == BinaryOperator::And {
            true_on(*left, schema, row, t, s) && true_on(*right, schema, row, t, s)
        } else if op == BinaryOperator::Or {
            true_on(*left, schema, row, t, s) || true_on(*right, schema, row, t, s)
        } else {
            (t.compare)(
                op,
                operand_on(*left, schema, row, s),
                operand_on(*right, schema, row, s),
            )
        },
        LogicalExprView::IsNull { expr, negated } => if *expr is Column {
            (operand(*expr, schema, row) is Null) != negated
        } else {
            (t.compare)(
                BinaryOperator::Equals,
                value_on(e, schema, row, s),
                Datum::Numeric(NumericView::Integer(1)),
            )
        },
        _ => (t.compare)(
            BinaryOperator::Equals,
            value_on(e, schema, row, s),
            Datum::Numeric(NumericView::Integer(1)),
        ),
    }
}

/// A predicate that can be tested as it is holds where it is true.
proof fn lemma_plain_predicates_hold(
    e: LogicalExprView,
    schema: Seq<ColumnInfoView>,
    row: Seq<Datum>,
    t: Tests,
    s: Sense,
)
    requires
        filter_of(e, schema) is Ok,
    ensures
        holds(e, schema, row, t) == true_on(e, schema, row, t, s),
    decreases e,
{
    if let LogicalExprView::BinaryExpr { left, op, right } = e {
        if is_connective(op) {
            assert(filter_of(*left, schema) is Ok && filter_of(*right, schema) is Ok);
            lemma_plain_predicates_hold(*left, schema, row, t, s);
            lemma_plain_predicates_hold(*right, schema, row, t, s);
        }
    }
}

/// Whether all that a predicate has to have computed is one expression.
pub open spec fn computes_only(e: LogicalExprView, x: LogicalExprView) -> bool
    decreases e,
{
    match e {
        LogicalExprView::BinaryExpr { left, op, right } => if is_connective(op) {
            computes_only(*left, x) && computes_only(*right, x)
        } else if needs_projection(e) && !is_simple(*left) {
            *left == x
        } else if needs_projection(e) && !is_simple(*right) {
            *right == x
        } else {
            true
        },
        _ => needs_projection(e) ==> e == x,
    }
}

proof fn lemma_operand_widened(
    e: LogicalExprView,
    schema: Seq<ColumnInfoView>,
    row: Seq<Datum>,
    v: Datum,
)
    requires
        is_simple(e),
        e matches LogicalExprView::Column(c) ==> filter_position(c, schema) is Ok,
        row.len() == schema.len(),
    ensures
        operand(e, schema.push(temp_column()), row.push(v)) == operand(e, schema, row),
{
    if let LogicalExprView::Column(c) = e {
        let one = seq![temp_column()];
        lemma_found_in_front(schema, one, filter_names(c));
        lemma_first_where(schema, filter_names(c));
        assert(schema + one =~= schema.push(temp_column()));
    }
}

proof fn lemma_operand_computed(schema: Seq<ColumnInfoView>, row: Seq<Datum>, v: Datum)
    requires
        forall|i: int| 0 <= i < schema.len() ==> (#[trigger] schema[i]).name != temp_name(),
        row.len() == schema.len(),
    ensures
        operand(bare_column(temp_name()), schema.push(temp_column()), row.push(v)) == v,
{
    let c = bare_column(temp_name())->Column_0;
    let one = seq![temp_column()];
    lemma_first_where(schema, filter_names(c));
    lemma_found_in_front(schema, one, filter_names(c));
    lemma_first_where(one, filter_names(c));
    assert(filter_names(c)(one[0]));
    assert(schema + one =~= schema.push(temp_column()));
    match first_where(schema, filter_names(c)) {
        Some(i) => {
            assert(schema[i].name == temp_name());
        },
        None => {},
    }
}

/// A predicate with what it computes replaced by a column that holds it is true where it was.
proof fn lemma_replaced_predicate(
    e: LogicalExprView,
    x: LogicalExprView,
    schema: Seq<ColumnInfoView>,
    row: Seq<Datum>,
    t: Tests,
    s: Sense,
)
    requires
        filter_of(replaced(e, temp_name()), schema.push(temp_column())) is Ok,
        computes_only(e, x),
        columns_resolve(e, schema),
        forall|i: int| 0 <= i < schema.len() ==> (#[trigger] schema[i]).name != temp_name(),
        row.len() == schema.len(),
    ensures
        holds(
            replaced(e, temp_name()),
            schema.push(temp_column()),
            row.push(value_on(x, schema, row, s)),
            t,
        ) == true_on(e, schema, row, t, s),
    decreases e,
{
    let v = value_on(x, schema, row, s);
    let wide = schema.push(temp_column());
    let r = replaced(e, temp_name());
    lemma_operand_computed(schema, row, v);
    match e {
        LogicalExprView::BinaryExpr { left, op, right } => {
            if is_connective(op) {
                assert(filter_of(*r->BinaryExpr_left, wide) is Ok);
                assert(filter_of(*r->BinaryExpr_right, wide) is Ok);
                lemma_replaced_predicate(*left, x, schema, row, t, s);
                lemma_replaced_predicate(*right, x, schema, row, t, s);
            } else {
                reveal_with_fuel(columns_resolve, 2);
                if is_simple(*left) {
                    lemma_operand_widened(*left, schema, row, v);
                }
                if is_simple(*right) {
                    lemma_operand_widened(*right, schema, row, v);
                }
                assert(is_comparison(op));
            }
        },
        LogicalExprView::IsNull { expr, negated } => {
            reveal_with_fuel(columns_resolve, 2);
            if *expr is Column {
                lemma_operand_widened(*expr, schema, row, v);
            } else {
                let one = LogicalExprView::Literal(int_datum(1));
                assert(operand(one, wide, row.push(v)) == int_datum(1));
            }
        },
        _ => {
            let one = LogicalExprView::Literal(int_datum(1));
            assert(operand(one, wide, row.push(v)) == int_datum(1));
        },
    }
}

/// What the nodes of a filter let through: the rows on which its predicate is true, whether it is
/// tested as it is or an expression in it has to be computed first.
///
/// The rows have the columns of their schema. No more than one expression has to be computed, and
/// where one has, the columns of the predicate are in the schema, none of which has the name of the
/// column that is computed.
pub proof fn law_a_filter_lets_through_the_rows_on_which_its_predicate_is_true(
    nodes: Seq<NodeView>,
    input: int,
    schema: Seq<ColumnInfoView>,
    predicate: LogicalExprView,
    flow: Flow,
    row: Seq<Datum>,
)
    requires
        1 <= input <= nodes.len(),
        sensible(flow.sense),
        forall|r: Seq<Datum>| #[trigger] (flow.source)(input)(r) ==> r.len() == schema.len(),
        needs_projection(predicate) ==> {
            &&& computes_only(predicate, extracted(predicate))
            &&& columns_resolve(predicate, schema)
            &&& forall|i: int| 0 <= i < schema.len() ==> (#[trigger] schema[i]).name != temp_name()
        },
        filter_built(nodes, input, schema, predicate) is Ok,
    ensures
        ({
            let b = filter_built(nodes, input, schema, predicate)->Ok_0;
            rows_out(b.0, nodes.len() as int, b.1, flow)(row) <==> (flow.source)(input)(row)
                && true_on(predicate, schema, row, flow.tests, flow.sense)
        }),
{
    reveal(filter_built);
    let base = nodes.len() as int;
    let t = flow.tests;
    let s = flow.sense;
    let rows = (flow.source)(input);
    let b = filter_built(nodes, input, schema, predicate)->Ok_0;
    if !needs_projection(predicate) {
        law_a_predicate_passes_where_its_expression_holds(predicate, schema, row, t);
        lemma_plain_predicates_hold(predicate, schema, row, t, s);
        assert(rows_out(b.0, base, input, flow) == rows);
    } else {
        let x = extracted(predicate);
        let computed = compiled_of(x, schema)->Ok_0.0;
        let wide_node = widening(input, schema, computed);
        let wide_nodes = nodes.push(wide_node);
        let wide_schema = schema.push(temp_column());
        let kept = filter_node_built(
            wide_nodes,
            base + 1,
            replaced(predicate, temp_name()),
            wide_schema,
        )->Ok_0;
        let f = filter_of(replaced(predicate, temp_name()), wide_schema)->Ok_0;
        assert(b.0 == kept.0.push(narrowing(kept.1, schema)));
        assert(b.0[base] == wide_node);
        assert(b.0[base + 1].executable == ExecutableView::Filter(f));
        assert(b.0[base + 1].inputs[0] as int == base + 1);
        assert(b.0[base + 2].inputs[0] as int == base + 2);
        let exprs = passthroughs(schema.len()).push(computed);
        let widened = projected(rows, exprs, s);
        assert(rows_out(b.0, base, input, flow) == rows);
        assert(rows_out(b.0, base, base + 1, flow) == widened);
        let passed = filtered(widened, f, t);
        assert(rows_out(b.0, base, base + 2, flow) == passed);
        assert(rows_out(b.0, base, base + 3, flow) == projected(
            passed,
            passthroughs(schema.len()),
            s,
        ));
        let n = schema.len();
        // What a row is when it has been widened, and when it has been narrowed again.
        assert forall|r: Seq<Datum>| #[trigger] rows(r) implies Seq::new(
            exprs.len(),
            |i: int| tree_value(exprs[i].tree, r, s),
        ) == r.push(value_on(x, schema, r, s)) by {
            law_a_compiled_expression_has_the_value_of_its_expression(x, schema, r, s);
            assert(Seq::new(exprs.len(), |i: int| tree_value(exprs[i].tree, r, s)) =~= r.push(
                value_on(x, schema, r, s),
            ));
        }
        assert forall|w: Seq<Datum>| w.len() == n + 1 implies Seq::new(
            n,
            |i: int| tree_value(#[trigger] passthroughs(n)[i].tree, w, s),
        ) == w.drop_last() by {
            assert(Seq::new(n, |i: int| tree_value(passthroughs(n)[i].tree, w, s))
                =~= w.drop_last());
        }
        let out = projected(passed, passthroughs(n), s);
        if out(row) {
            let w = choose|w: Seq<Datum>| #[trigger]
                passed(w) && row == Seq::new(
                    passthroughs(n).len(),
                    |i: int| tree_value(passthroughs(n)[i].tree, w, s),
                );
            let r = choose|r: Seq<Datum>| #[trigger]
                rows(r) && w == Seq::new(exprs.len(), |i: int| tree_value(exprs[i].tree, r, s));
            assert(w == r.push(value_on(x, schema, r, s)));
            assert(row =~= w.drop_last());
            assert(w.drop_last() =~= r);
            lemma_replaced_predicate(predicate, x, schema, r, t, s);
            law_a_predicate_passes_where_its_expression_holds(
                replaced(predicate, temp_name()),
                wide_schema,
                w,
                t,
            );
        }
        if rows(row) && true_on(predicate, schema, row, t, s) {
            let w = row.push(value_on(x, schema, row, s));
            lemma_replaced_predicate(predicate, x, schema, row, t, s);
            law_a_predicate_passes_where_its_expression_holds(
                replaced(predicate, temp_name()),
                wide_schema,
                w,
                t,
            );
            assert(rows(row) && w == Seq::new(
                exprs.len(),
                |i: int| tree_value(exprs[i].tree, row, s),
            ));
            assert(widened(w));
            assert(passed(w));
            assert(w.drop_last() =~= row);
            assert(row =~= Seq::new(
                passthroughs(n).len(),
                |i: int| tree_value(passthroughs(n)[i].tree, w, s),
            ));
            assert(out(row));
        }
    }
}

// Projections.

proof fn lemma_compiled_list(list: Seq<LogicalExprView>, schema: Seq<ColumnInfoView>)
    requires
        compiled_list(list, schema) is Ok,
    ensures
        ({
            let c = compiled_list(list, schema)->Ok_0;
            &&& c.len() == list.len()
            &&& forall|i: int|
                0 <= i < list.len() ==> #[trigger] compiled_of(list[i], schema) is Ok && c[i]
                    == compiled_of(list[i], schema)->Ok_0
        }),
    decreases list.len(),
{
    if list.len() > 0 {
        let front = list.drop_last();
        lemma_compiled_list(front, schema);
        let c = compiled_list(list, schema)->Ok_0;
        let some = compiled_list(front, schema)->Ok_0;
        assert forall|i: int| 0 <= i < list.len() implies #[trigger] compiled_of(
            list[i],
            schema,
        ) is Ok && c[i] == compiled_of(list[i], schema)->Ok_0 by {
            if i < front.len() {
                assert(front[i] == list[i]);
                assert(compiled_of(front[i], schema) is Ok);
                assert(c[i] == some[i]);
            }
        }
    }
}

/// What the node of a projection lets through: of every row the values of the expressions, one for
/// one. A column is named by the alias of the expression that it comes from, where that has one.
pub proof fn law_a_projection_evaluates_its_expressions(
    nodes: Seq<NodeView>,
    input: int,
    in_schema: Seq<ColumnInfoView>,
    exprs: Seq<LogicalExprView>,
    schema: Seq<ColumnInfoView>,
    flow: Flow,
    row: Seq<Datum>,
)
    requires
        1 <= input <= nodes.len(),
        sensible(flow.sense),
        projection_built(nodes, input, in_schema, exprs, schema) is Ok,
    ensures
        ({
            let b = projection_built(nodes, input, in_schema, exprs, schema)->Ok_0;
            &&& rows_out(b.0, nodes.len() as int, b.1, flow)(row) <==> exists|r: Seq<Datum>|
                #[trigger] (flow.source)(input)(r) && row == Seq::new(
                    exprs.len(),
                    |i: int| value_on(exprs[i], in_schema, r, flow.sense),
                )
            &&& b.0[b.1 - 1].executable matches ExecutableView::Project {
                aliases,
                input_names,
                output_names,
                ..
            } && {
                &&& aliases.len() == exprs.len()
                &&& forall|i: int|
                    0 <= i < exprs.len() ==> #[trigger] aliases[i] == (match exprs[i] {
                        LogicalExprView::Alias { alias, .. } => Some(alias),
                        _ => None,
                    })
                &&& input_names.len() == in_schema.len()
                &&& forall|i: int|
                    0 <= i < in_schema.len() ==> #[trigger] input_names[i] == in_schema[i].name
                &&& output_names.len() == schema.len()
                &&& forall|i: int|
                    0 <= i < schema.len() ==> #[trigger] output_names[i] == schema[i].name
            }
        }),
{
    reveal(projection_built);
    let base = nodes.len() as int;
    let s = flow.sense;
    let rows = (flow.source)(input);
    let b = projection_built(nodes, input, in_schema, exprs, schema)->Ok_0;
    let list = compiled_list(exprs, in_schema)->Ok_0;
    lemma_compiled_list(exprs, in_schema);
    let compiled = b.0[b.1 - 1].executable->Project_exprs;
    let aliases = b.0[b.1 - 1].executable->Project_aliases;
    assert(b.0[b.1 - 1].inputs[0] as int == input);
    assert(rows_out(b.0, base, input, flow) == rows);
    assert(rows_out(b.0, base, b.1, flow) == projected(rows, compiled, s));
    assert forall|r: Seq<Datum>| #[trigger] rows(r) implies Seq::new(
        compiled.len(),
        |i: int| tree_value(compiled[i].tree, r, s),
    ) == Seq::new(exprs.len(), |i: int| value_on(exprs[i], in_schema, r, s)) by {
        assert forall|i: int| 0 <= i < exprs.len() implies tree_value(
            #[trigger] compiled[i].tree,
            r,
            s,
        ) == value_on(exprs[i], in_schema, r, s) by {
            assert(compiled_of(exprs[i], in_schema) is Ok);
            law_a_compiled_expression_has_the_value_of_its_expression(exprs[i], in_schema, r, s);
        }
        assert(Seq::new(compiled.len(), |i: int| tree_value(compiled[i].tree, r, s)) =~= Seq::new(
            exprs.len(),
            |i: int| value_on(exprs[i], in_schema, r, s),
        ));
    }
    assert forall|i: int| 0 <= i < exprs.len() implies #[trigger] aliases[i] == (match exprs[i] {
        LogicalExprView::Alias { alias, .. } => Some(alias),
        _ => None,
    }) by {
        assert(compiled_of(exprs[i], in_schema) is Ok);
        assert(aliases[i] == list[i].1);
        law_a_compiled_expression_has_the_value_of_its_expression(exprs[i], in_schema, row, s);
    }
}

// Aggregates.

/// What an aggregate of a plan asks for.
pub open spec fn call_asked(e: LogicalExprView, schema: Seq<ColumnInfoView>, t: Tests) -> Call {
    let fun = e->AggregateFunction_fun;
    let args = e->AggregateFunction_args;
    let distinct = e->AggregateFunction_distinct;
    let first = args[0]->Column_0;
    let counts = fun == AggFunc::Count || fun == AggFunc::Count0;
    let texts = fun == AggFunc::GroupConcat || fun == AggFunc::StringAgg;
    Call {
        kind: if counts {
            Kind::Counting
        } else if texts {
            Kind::Concatenating
        } else if fun == AggFunc::Sum {
            Kind::Summing
        } else if fun == AggFunc::Avg {
            Kind::Averaging
        } else if fun == AggFunc::Min {
            Kind::Least
        } else if fun == AggFunc::Max {
            Kind::Greatest
        } else {
            Kind::Listing
        },
        column: if counts && !distinct {
            None
        } else {
            column_position(schema, first.name, first.table)
        },
        distinct: distinct && fun != AggFunc::Min && fun != AggFunc::Max,
        separator: if !texts {
            Seq::empty()
        } else if args.len() < 2 {
            ","@
        } else {
            args[1]->Literal_0->Text_0
        },
        only: match e->AggregateFunction_filter {
            Some(p) => Some(|row: Seq<Datum>| holds(*p, schema, row, t)),
            None => None,
        },
    }
}

/// The function that an aggregate is compiled to does what the aggregate asks for, on the rows that
/// its FILTER leaves.
pub proof fn law_an_aggregate_function_does_what_is_asked(
    e: LogicalExprView,
    schema: Seq<ColumnInfoView>,
    t: Tests,
)
    requires
        aggregate_of(e, schema) is Ok,
    ensures
        e is AggregateFunction,
        ({
            let f = aggregate_of(e, schema)->Ok_0;
            call_read(f.0, f.1, t) == call_asked(e, schema, t)
        }),
{
    let f = aggregate_of(e, schema)->Ok_0;
    let read = call_read(f.0, f.1, t);
    let asked = call_asked(e, schema, t);
    if let Some(p) = e->AggregateFunction_filter {
        let a = |row: Seq<Datum>| passes(f.1->Some_0, row, t);
        let b = |row: Seq<Datum>| holds(*p, schema, row, t);
        assert forall|row: Seq<Datum>| #[trigger] a(row) == b(row) by {
            law_a_predicate_passes_where_its_expression_holds(*p, schema, row, t);
        }
        assert(a =~= b);
        assert(read.only == asked.only);
    }
    assert(read.kind == asked.kind);
    assert(read.column == asked.column);
    assert(read.distinct == asked.distinct);
    assert(read.separator =~= asked.separator);
}

proof fn lemma_group_keys(list: Seq<LogicalExprView>, schema: Seq<ColumnInfoView>)
    requires
        group_keys(list, schema) is Ok,
    ensures
        ({
            let keys = group_keys(list, schema)->Ok_0;
            &&& keys.len() == list.len()
            &&& forall|i: int|
                0 <= i < list.len() ==> #[trigger] group_key(list[i], schema) is Ok && keys[i]
                    == group_key(list[i], schema)->Ok_0
        }),
    decreases list.len(),
{
    if list.len() > 0 {
        let front = list.drop_last();
        lemma_group_keys(front, schema);
        let keys = group_keys(list, schema)->Ok_0;
        let some = group_keys(front, schema)->Ok_0;
        assert forall|i: int| 0 <= i < list.len() implies #[trigger] group_key(
            list[i],
            schema,
        ) is Ok && keys[i] == group_key(list[i], schema)->Ok_0 by {
            if i < front.len() {
                assert(front[i] == list[i]);
                assert(group_key(front[i], schema) is Ok);
                assert(keys[i] == some[i]);
            }
        }
    }
}

proof fn lemma_aggregates(list: Seq<LogicalExprView>, schema: Seq<ColumnInfoView>)
    requires
        aggregates_of(list, schema) is Ok,
    ensures
        ({
            let all = aggregates_of(list, schema)->Ok_0;
            &&& all.len() == list.len()
            &&& forall|i: int|
                0 <= i < list.len() ==> #[trigger] aggregate_of(list[i], schema) is Ok && all[i]
                    == aggregate_of(list[i], schema)->Ok_0
        }),
    decreases list.len(),
{
    if list.len() > 0 {
        let front = list.drop_last();
        lemma_aggregates(front, schema);
        let all = aggregates_of(list, schema)->Ok_0;
        let some = aggregates_of(front, schema)->Ok_0;
        assert forall|i: int| 0 <= i < list.len() implies #[trigger] aggregate_of(
            list[i],
            schema,
        ) is Ok && all[i] == aggregate_of(list[i], schema)->Ok_0 by {
            if i < front.len() {
                assert(front[i] == list[i]);
                assert(aggregate_of(front[i], schema) is Ok);
                assert(all[i] == some[i]);
            }
        }
    }
}

/// What the node of an aggregate lets through: the rows grouped by the columns that are named, one
/// for one, under the aggregates that are asked for, one for one.
pub proof fn law_an_aggregate_groups_by_the_columns_that_are_named(
    nodes: Seq<NodeView>,
    input: int,
    in_schema: Seq<ColumnInfoView>,
    group_expr: Seq<LogicalExprView>,
    aggr_expr: Seq<LogicalExprView>,
    schema: Seq<ColumnInfoView>,
    flow: Flow,
)
    requires
        1 <= input <= nodes.len(),
        aggregate_built(nodes, input, in_schema, group_expr, aggr_expr, schema) is Ok,
    ensures
        ({
            let b = aggregate_built(
                nodes,
                input,
                in_schema,
                group_expr,
                aggr_expr,
                schema,
            )->Ok_0;
            &&& forall|i: int|
                0 <= i < group_expr.len() ==> (#[trigger] group_expr[i] matches
                    LogicalExprView::Column(c) && column_position(
                    in_schema,
                    c.name,
                    c.table,
                ) is Some)
            &&& rows_out(b.0, nodes.len() as int, b.1, flow) == (flow.grouped)(
                (flow.source)(input),
                Seq::new(
                    group_expr.len(),
                    |i: int|
                        column_position(
                            in_schema,
                            group_expr[i]->Column_0.name,
                            group_expr[i]->Column_0.table,
                        )->Some_0,
                ),
                Seq::new(
                    aggr_expr.len(),
                    |i: int| call_asked(aggr_expr[i], in_schema, flow.tests),
                ),
            )
        }),
{
    reveal(aggregate_built);
    let base = nodes.len() as int;
    let t = flow.tests;
    let b = aggregate_built(nodes, input, in_schema, group_expr, aggr_expr, schema)->Ok_0;
    lemma_group_keys(group_expr, in_schema);
    lemma_aggregates(aggr_expr, in_schema);
    let keys = group_keys(group_expr, in_schema)->Ok_0;
    let list = aggregates_of(aggr_expr, in_schema)->Ok_0;
    assert forall|i: int| 0 <= i < group_expr.len() implies (#[trigger] group_expr[i] matches
        LogicalExprView::Column(c) && column_position(in_schema, c.name, c.table) is Some) by {
        assert(group_key(group_expr[i], in_schema) is Ok);
    }
    assert(rows_out(b.0, base, input, flow) == (flow.source)(input));
    assert(b.0[b.1 - 1].inputs[0] as int == input);
    let columns = Seq::new(
        group_expr.len(),
        |i: int|
            column_position(
                in_schema,
                group_expr[i]->Column_0.name,
                group_expr[i]->Column_0.table,
            )->Some_0,
    );
    assert forall|i: int| 0 <= i < columns.len() implies #[trigger] key_positions(keys)[i]
        == columns[i] by {
        assert(group_key(group_expr[i], in_schema) is Ok);
    }
    assert(key_positions(keys) =~= columns);
    let calls = Seq::new(aggr_expr.len(), |i: int| call_asked(aggr_expr[i], in_schema, t));
    let read = calls_read(functions_of(list), filters_of(list), t);
    assert forall|i: int| 0 <= i < calls.len() implies #[trigger] read[i] == calls[i] by {
        assert(aggregate_of(aggr_expr[i], in_schema) is Ok);
        law_an_aggregate_function_does_what_is_asked(aggr_expr[i], in_schema, t);
    }
    assert(read =~= calls);
}

// Plans.

/// The pairs of rows that meet in every equality of a join and on which its condition holds, and in
/// a LEFT JOIN the left rows without such a right row, padded with NULLs.
pub open spec fn join_answer(
    left: Rows,
    right: Rows,
    join_type: LogicalJoinType,
    on: Seq<(LogicalExprView, LogicalExprView)>,
    filter: Option<LogicalExprView>,
    left_schema: Seq<ColumnInfoView>,
    right_schema: Seq<ColumnInfoView>,
    t: Tests,
) -> Rows {
    let meets = |l: Seq<Datum>, r: Seq<Datum>|
        equalities_meet(on, left_schema, right_schema, l, r, t) && (filter matches Some(e)
            ==> holds(e, left_schema + right_schema, l + r, t));
    |row: Seq<Datum>|
        {
            ||| exists|l: Seq<Datum>, r: Seq<Datum>| #[trigger]
                left(l) && #[trigger] right(r) && meets(l, r) && row == l + r
            ||| join_type == LogicalJoinType::Left && exists|l: Seq<Datum>|
                {
                    &&& #[trigger] left(l)
                    &&& row == l + Seq::new(right_schema.len(), |i: int| Datum::Null)
                    &&& forall|r: Seq<Datum>| #[trigger] right(r) ==> !meets(l, r)
                }
        }
}

/// What a plan answers. The order and the number of the rows are left to those who read them.
pub open spec fn answer(plan: PlanView, flow: Flow) -> Rows
    decreases plan,
{
    match plan {
        PlanView::Projection { input, exprs, .. } => {
            let rows = answer(*input, flow);
            |row: Seq<Datum>|
                exists|r: Seq<Datum>| #[trigger]
                    rows(r) && row == Seq::new(
                        exprs.len(),
                        |i: int| value_on(exprs[i], schema_of(*input), r, flow.sense),
                    )
        },
        PlanView::Filter { input, predicate } => {
            let rows = answer(*input, flow);
            |row: Seq<Datum>|
                rows(row) && true_on(predicate, schema_of(*input), row, flow.tests, flow.sense)
        },
        PlanView::Aggregate { input, group_expr, aggr_expr, .. } => (flow.grouped)(
            answer(*input, flow),
            Seq::new(
                group_expr.len(),
                |i: int|
                    column_position(
                        schema_of(*input),
                        group_expr[i]->Column_0.name,
                        group_expr[i]->Column_0.table,
                    )->Some_0,
            ),
            Seq::new(
                aggr_expr.len(),
                |i: int| call_asked(aggr_expr[i], schema_of(*input), flow.tests),
            ),
        ),
        PlanView::Join { left, right, join_type, on, filter, .. } => join_answer(
            answer(*left, flow),
            answer(*right, flow),
            join_type,
            on,
            match filter {
                Some(f) => Some(*f),
                None => None,
            },
            schema_of(*left),
            schema_of(*right),
            flow.tests,
        ),
        PlanView::Sort { input, .. } => answer(*input, flow),
        PlanView::Limit { input, .. } => answer(*input, flow),
        PlanView::TableScan { table_name, .. } => (flow.table)(table_name),
        PlanView::Union { inputs, .. } => if inputs.len() == 2 {
            let a = answer(inputs[0], flow);
            let b = answer(inputs[1], flow);
            |row: Seq<Datum>| a(row) || b(row)
        } else {
            |row: Seq<Datum>| false
        },
        PlanView::Distinct { input } => answer(*input, flow),
        PlanView::EmptyRelation { produce_one_row, .. } => |row: Seq<Datum>|
            produce_one_row && row.len() == 0,
        PlanView::Values { rows, .. } => |row: Seq<Datum>|
            exists|i: int|
                {
                    &&& 0 <= i < rows.len()
                    &&& row.len() == (#[trigger] rows[i]).len()
                    &&& forall|j: int|
                        0 <= j < row.len() ==> rows[i][j] == LogicalExprView::Literal(
                            #[trigger] row[j],
                        )
                },
        _ => |row: Seq<Datum>| false,
    }
}

/// Whether a plan is made of operators of a single pass, and its schemas fit: rows have the columns
/// that their schemas say. What else is asked is what the laws on the operators ask.
pub open spec fn fitting(plan: PlanView, flow: Flow) -> bool
    decreases plan,
{
    match plan {
        PlanView::Projection { input, exprs, schema } => fitting(*input, flow) && exprs.len()
            == schema.len(),
        PlanView::Filter { input, predicate } => {
            let schema = schema_of(*input);
            &&& fitting(*input, flow)
            &&& needs_projection(predicate) ==> {
                &&& computes_only(predicate, extracted(predicate))
                &&& columns_resolve(predicate, schema)
                &&& forall|i: int|
                    0 <= i < schema.len() ==> (#[trigger] schema[i]).name != temp_name()
            }
        },
        PlanView::Aggregate { input, group_expr, aggr_expr, schema } => fitting(*input, flow)
            && schema.len() == group_expr.len() + aggr_expr.len(),
        PlanView::Join { left, right, join_type, filter, schema, .. } => {
            &&& fitting(*left, flow)
            &&& fitting(*right, flow)
            &&& join_type == LogicalJoinType::Inner || join_type == LogicalJoinType::Left
            &&& filter matches Some(e) ==> found_alike(*e, schema_of(*left))
            &&& schema == schema_of(*left) + schema_of(*right)
            &&& schema.len() <= usize::MAX
        },
        PlanView::Sort { input, .. } => fitting(*input, flow),
        PlanView::Limit { input, .. } => fitting(*input, flow),
        PlanView::TableScan { table_name, schema } => forall|r: Seq<Datum>| #[trigger]
            (flow.table)(table_name)(r) ==> r.len() == schema.len(),
        PlanView::Union { inputs, schema, .. } => {
            &&& inputs.len() == 2
            &&& fitting(inputs[0], flow)
            &&& fitting(inputs[1], flow)
            &&& schema_of(inputs[0]).len() == schema.len()
            &&& schema_of(inputs[1]).len() == schema.len()
        },
        PlanView::Distinct { input } => fitting(*input, flow),
        PlanView::EmptyRelation { produce_one_row, schema } => produce_one_row ==> schema.len()
            == 0,
        PlanView::Values { rows, schema } => forall|i: int|
            0 <= i < rows.len() ==> (#[trigger] rows[i]).len() == schema.len(),
        _ => false,
    }
}

/// Whether grouping is what it is: a grouped row holds its group and then its aggregates, and rows
/// that are grouped by all their columns under no aggregate are what they were.
pub open spec fn groups_well(flow: Flow) -> bool {
    &&& forall|rows: Rows, by: Seq<int>, calls: Seq<Call>, row: Seq<Datum>| #[trigger]
        (flow.grouped)(rows, by, calls)(row) ==> row.len() == by.len() + calls.len()
    &&& forall|rows: Rows, by: Seq<int>|
        (forall|i: int| 0 <= i < by.len() ==> #[trigger] by[i] == i) && (forall|r: Seq<Datum>|
            #[trigger] rows(r) ==> r.len() == by.len()) ==> #[trigger] (flow.grouped)(
            rows,
            by,
            Seq::empty(),
        ) == rows
}

proof fn lemma_join_answer_columns(
    left: Rows,
    right: Rows,
    join_type: LogicalJoinType,
    on: Seq<(LogicalExprView, LogicalExprView)>,
    filter: Option<LogicalExprView>,
    left_schema: Seq<ColumnInfoView>,
    right_schema: Seq<ColumnInfoView>,
    t: Tests,
    row: Seq<Datum>,
)
    requires
        forall|l: Seq<Datum>| #[trigger] left(l) ==> l.len() == left_schema.len(),
        forall|r: Seq<Datum>| #[trigger] right(r) ==> r.len() == right_schema.len(),
        join_answer(left, right, join_type, on, filter, left_schema, right_schema, t)(row),
    ensures
        row.len() == left_schema.len() + right_schema.len(),
{
    if exists|l: Seq<Datum>, r: Seq<Datum>| #[trigger]
        left(l) && #[trigger] right(r) && row == l + r {
    } else {
        assert(exists|l: Seq<Datum>|
            #[trigger] left(l) && row == l + Seq::new(right_schema.len(), |i: int| Datum::Null));
    }
}

proof fn lemma_answers_have_the_columns(plan: PlanView, flow: Flow)
    requires
        fitting(plan, flow),
        groups_well(flow),
    ensures
        forall|row: Seq<Datum>| #[trigger]
            answer(plan, flow)(row) ==> row.len() == schema_of(plan).len(),
    decreases plan,
{
    match plan {
        PlanView::Filter { input, .. } => {
            lemma_answers_have_the_columns(*input, flow);
        },
        PlanView::Sort { input, .. } => {
            lemma_answers_have_the_columns(*input, flow);
        },
        PlanView::Limit { input, .. } => {
            lemma_answers_have_the_columns(*input, flow);
        },
        PlanView::Distinct { input } => {
            lemma_answers_have_the_columns(*input, flow);
        },
        PlanView::Join { left, right, .. } => {
            lemma_answers_have_the_columns(*left, flow);
            lemma_answers_have_the_columns(*right, flow);
        },
        PlanView::Union { inputs, .. } => {
            assert(decreases_to!(plan => inputs[0]));
            assert(decreases_to!(plan => inputs[1]));
            lemma_answers_have_the_columns(inputs[0], flow);
            lemma_answers_have_the_columns(inputs[1], flow);
        },
        _ => {},
    }
    assert forall|row: Seq<Datum>| #[trigger] answer(plan, flow)(row) implies row.len()
        == schema_of(plan).len() by {
        match plan {
            PlanView::Filter { input, .. } => {
                assert(answer(*input, flow)(row));
            },
            PlanView::Join { left, right, join_type, on, filter, .. } => {
                lemma_join_answer_columns(
                    answer(*left, flow),
                    answer(*right, flow),
                    join_type,
                    on,
                    match filter {
                        Some(f) => Some(*f),
                        None => None,
                    },
                    schema_of(*left),
                    schema_of(*right),
                    flow.tests,
                    row,
                );
            },
            PlanView::Aggregate { input, group_expr, aggr_expr, schema } => {
                let by = Seq::new(
                    group_expr.len(),
                    |i: int|
                        column_position(
                            schema_of(*input),
                            group_expr[i]->Column_0.name,
                            group_expr[i]->Column_0.table,
                        )->Some_0,
                );
                let calls = Seq::new(
                    aggr_expr.len(),
                    |i: int| call_asked(aggr_expr[i], schema_of(*input), flow.tests),
                );
                assert((flow.grouped)(answer(*input, flow), by, calls)(row));
            },
            PlanView::Union { inputs, .. } => {
                assert(answer(inputs[0], flow)(row) || answer(inputs[1], flow)(row));
            },
            PlanView::Values { rows, .. } => {
                let i = choose|i: int|
                    0 <= i < rows.len() && row.len() == (#[trigger] rows[i]).len();
                assert(rows[i].len() == row.len());
            },
            PlanView::Sort { input, .. } => {
                assert(answer(*input, flow)(row));
            },
            PlanView::Limit { input, .. } => {
                assert(answer(*input, flow)(row));
            },
            PlanView::Distinct { input } => {
                assert(answer(*input, flow)(row));
            },
            _ => {},
        }
    }
}

/// The same circuit read from the nodes that are there already.
spec fn rebased(nodes: Seq<NodeView>, flow: Flow) -> Flow {
    Flow { source: |id: int| rows_out(nodes, 0, id, flow), ..flow }
}

proof fn lemma_rebased(a: Seq<NodeView>, b: Seq<NodeView>, id: int, flow: Flow)
    requires
        id <= b.len(),
        a.len() <= b.len(),
        forall|k: int| 0 <= k < a.len() ==> #[trigger] a[k] == b[k],
    ensures
        rows_out(b, a.len() as int, id, rebased(a, flow)) == rows_out(b, 0, id, flow),
    decreases id,
{
    let re = rebased(a, flow);
    assert((re.source)(id) == rows_out(a, 0, id, flow));
    if id <= a.len() {
        lemma_rows_out_stay(a, b, 0, id, flow);
    } else {
        let node = b[id - 1];
        let x = node.inputs[0] as int;
        let y = node.inputs[1] as int;
        if 0 <= x < id {
            lemma_rebased(a, b, x, flow);
        }
        if 0 <= y < id {
            lemma_rebased(a, b, y, flow);
        }
    }
}

/// Whether the nodes of a plan let through what it answers.
spec fn computed(nodes: Seq<NodeView>, c: Compiled, plan: PlanView, flow: Flow) -> bool {
    &&& nodes.len() <= c.nodes.len()
    &&& forall|k: int| 0 <= k < nodes.len() ==> #[trigger] nodes[k] == c.nodes[k]
    &&& 1 <= c.id <= c.nodes.len()
    &&& rows_out(c.nodes, 0, c.id, flow) == answer(plan, flow)
}

proof fn lemma_unary_computed(
    nodes: Seq<NodeView>,
    c: Compiled,
    d: Compiled,
    plan: PlanView,
    input: PlanView,
    flow: Flow,
)
    requires
        computed(nodes, c, input, flow),
        c.nodes.len() <= d.nodes.len(),
        forall|k: int| 0 <= k < c.nodes.len() ==> #[trigger] c.nodes[k] == d.nodes[k],
        1 <= d.id <= d.nodes.len(),
        rows_out(d.nodes, c.nodes.len() as int, d.id, rebased(c.nodes, flow)) == answer(plan, flow),
    ensures
        computed(nodes, d, plan, flow),
{
    lemma_rebased(c.nodes, d.nodes, d.id, flow);
    assert forall|k: int| 0 <= k < nodes.len() implies #[trigger] nodes[k] == d.nodes[k] by {
        assert(nodes[k] == c.nodes[k]);
    }
}

proof fn lemma_projection_computed(
    nodes: Seq<NodeView>,
    c: Compiled,
    d: Compiled,
    plan: PlanView,
    flow: Flow,
)
    requires
        plan matches PlanView::Projection { input, exprs, schema } && {
            &&& computed(nodes, c, *input, flow)
            &&& projection_built(c.nodes, c.id, schema_of(*input), exprs, schema) == Ok::<
                (Seq<NodeView>, int),
                ErrorView,
            >((d.nodes, d.id))
        },
        sensible(flow.sense),
    ensures
        computed(nodes, d, plan, flow),
{
    let input = *plan->Projection_input;
    let exprs = plan->Projection_exprs;
    let schema = plan->Projection_schema;
    let re = rebased(c.nodes, flow);
    let out = rows_out(d.nodes, c.nodes.len() as int, d.id, re);
    assert((re.source)(c.id) == answer(input, flow));
    assert forall|row: Seq<Datum>| #[trigger] out(row) == answer(plan, flow)(row) by {
        law_a_projection_evaluates_its_expressions(
            c.nodes,
            c.id,
            schema_of(input),
            exprs,
            schema,
            re,
            row,
        );
    }
    assert(out =~= answer(plan, flow));
    reveal(projection_built);
    lemma_unary_computed(nodes, c, d, plan, input, flow);
}

proof fn lemma_filter_computed(
    nodes: Seq<NodeView>,
    c: Compiled,
    d: Compiled,
    plan: PlanView,
    flow: Flow,
)
    requires
        plan matches PlanView::Filter { input, predicate } && {
            &&& computed(nodes, c, *input, flow)
            &&& filter_built(c.nodes, c.id, schema_of(*input), predicate) == Ok::<
                (Seq<NodeView>, int),
                ErrorView,
            >((d.nodes, d.id))
        },
        fitting(plan, flow),
        groups_well(flow),
        sensible(flow.sense),
    ensures
        computed(nodes, d, plan, flow),
{
    let input = *plan->Filter_input;
    let predicate = plan->Filter_predicate;
    let re = rebased(c.nodes, flow);
    let out = rows_out(d.nodes, c.nodes.len() as int, d.id, re);
    assert((re.source)(c.id) == answer(input, flow));
    lemma_answers_have_the_columns(input, flow);
    assert forall|row: Seq<Datum>| #[trigger] out(row) == answer(plan, flow)(row) by {
        law_a_filter_lets_through_the_rows_on_which_its_predicate_is_true(
            c.nodes,
            c.id,
            schema_of(input),
            predicate,
            re,
            row,
        );
    }
    assert(out =~= answer(plan, flow));
    reveal(filter_built);
    lemma_unary_computed(nodes, c, d, plan, input, flow);
}

proof fn lemma_aggregate_computed(
    nodes: Seq<NodeView>,
    c: Compiled,
    d: Compiled,
    plan: PlanView,
    flow: Flow,
)
    requires
        plan matches PlanView::Aggregate { input, group_expr, aggr_expr, schema } && {
            &&& computed(nodes, c, *input, flow)
            &&& aggregate_built(
                c.nodes,
                c.id,
                schema_of(*input),
                group_expr,
                aggr_expr,
                schema,
            ) == Ok::<(Seq<NodeView>, int), ErrorView>((d.nodes, d.id))
        },
    ensures
        computed(nodes, d, plan, flow),
{
    let input = *plan->Aggregate_input;
    let re = rebased(c.nodes, flow);
    assert((re.source)(c.id) == answer(input, flow));
    law_an_aggregate_groups_by_the_columns_that_are_named(
        c.nodes,
        c.id,
        schema_of(input),
        plan->Aggregate_group_expr,
        plan->Aggregate_aggr_expr,
        plan->Aggregate_schema,
        re,
    );
    reveal(aggregate_built);
    lemma_unary_computed(nodes, c, d, plan, input, flow);
}

proof fn lemma_distinct_computed(
    nodes: Seq<NodeView>,
    c: Compiled,
    d: Compiled,
    plan: PlanView,
    flow: Flow,
)
    requires
        plan matches PlanView::Distinct { input } && {
            &&& computed(nodes, c, *input, flow)
            &&& distinct_built(c.nodes, c.id, schema_of(*input)) == Ok::<
                (Seq<NodeView>, int),
                ErrorView,
            >((d.nodes, d.id))
        },
        fitting(plan, flow),
        groups_well(flow),
    ensures
        computed(nodes, d, plan, flow),
{
    let input = *plan->Distinct_input;
    let re = rebased(c.nodes, flow);
    let base = c.nodes.len() as int;
    reveal(distinct_built);
    assert((re.source)(c.id) == answer(input, flow));
    lemma_answers_have_the_columns(input, flow);
    let node = d.nodes[d.id - 1];
    assert(node.inputs[0] as int == c.id);
    let by = node.executable->Aggregate_group_by;
    let calls = calls_read(
        node.executable->Aggregate_functions,
        node.executable->Aggregate_filters,
        flow.tests,
    );
    assert(calls =~= Seq::<Call>::empty());
    assert(rows_out(d.nodes, base, c.id, re) == answer(input, flow));
    assert(rows_out(d.nodes, base, d.id, re) == (flow.grouped)(answer(input, flow), by, calls));
    lemma_unary_computed(nodes, c, d, plan, input, flow);
}

proof fn lemma_join_computed(
    nodes: Seq<NodeView>,
    l: Compiled,
    r: Compiled,
    d: Compiled,
    plan: PlanView,
    flow: Flow,
)
    requires
        plan matches PlanView::Join { left, right, join_type, on, filter, schema } && {
            &&& computed(nodes, l, *left, flow)
            &&& computed(l.nodes, r, *right, flow)
            &&& join_built(
                r.nodes,
                l.id,
                r.id,
                join_type,
                on,
                match filter {
                    Some(f) => Some(*f),
                    None => None,
                },
                schema_of(*left),
                schema_of(*right),
                schema,
            ) == Ok::<(Seq<NodeView>, int), ErrorView>((d.nodes, d.id))
        },
        extends(d.nodes, r.nodes),
        fitting(plan, flow),
        groups_well(flow),
    ensures
        computed(nodes, d, plan, flow),
{
    let left = *plan->Join_left;
    let right = *plan->Join_right;
    let filter = match plan->Join_filter {
        Some(f) => Some(*f),
        None => None,
    };
    let re = rebased(r.nodes, flow);
    let base = r.nodes.len() as int;
    lemma_rows_out_stay(l.nodes, r.nodes, 0, l.id, flow);
    assert((re.source)(l.id) == answer(left, flow));
    assert((re.source)(r.id) == answer(right, flow));
    lemma_answers_have_the_columns(left, flow);
    lemma_answers_have_the_columns(right, flow);
    let out = rows_out(d.nodes, base, d.id, re);
    assert forall|row: Seq<Datum>| #[trigger] out(row) == answer(plan, flow)(row) by {
        law_a_join_lets_through_the_pairs_that_meet_its_condition(
            r.nodes,
            l.id,
            r.id,
            plan->Join_join_type,
            plan->Join_on,
            filter,
            schema_of(left),
            schema_of(right),
            re,
            row,
        );
        assert(answer(plan, flow) == join_answer(
            answer(left, flow),
            answer(right, flow),
            plan->Join_join_type,
            plan->Join_on,
            filter,
            schema_of(left),
            schema_of(right),
            flow.tests,
        ));
    }
    assert(out =~= answer(plan, flow));
    lemma_join_root(
        r.nodes,
        l.id,
        r.id,
        plan->Join_join_type,
        plan->Join_on,
        filter,
        schema_of(left),
        schema_of(right),
        plan->Join_schema,
    );
    lemma_rebased(r.nodes, d.nodes, d.id, flow);
    assert forall|k: int| 0 <= k < r.nodes.len() implies #[trigger] r.nodes[k] == d.nodes[k] by {
        assert(d.nodes.take(r.nodes.len() as int)[k] == d.nodes[k]);
    }
    assert forall|k: int| 0 <= k < nodes.len() implies #[trigger] nodes[k] == d.nodes[k] by {
        assert(nodes[k] == l.nodes[k]);
        assert(l.nodes[k] == r.nodes[k]);
    }
}

proof fn lemma_join_root(
    nodes: Seq<NodeView>,
    left: int,
    right: int,
    join_type: LogicalJoinType,
    on: Seq<(LogicalExprView, LogicalExprView)>,
    filter: Option<LogicalExprView>,
    left_schema: Seq<ColumnInfoView>,
    right_schema: Seq<ColumnInfoView>,
    schema: Seq<ColumnInfoView>,
)
    ensures
        join_built(
            nodes,
            left,
            right,
            join_type,
            on,
            filter,
            left_schema,
            right_schema,
            schema,
        ) matches Ok(b) ==> 1 <= b.1 <= b.0.len(),
{
    reveal(join_built);
}

proof fn lemma_union_computed(
    nodes: Seq<NodeView>,
    l: Compiled,
    r: Compiled,
    d: Compiled,
    plan: PlanView,
    flow: Flow,
)
    requires
        plan matches PlanView::Union { inputs, all, schema } && {
            &&& inputs.len() == 2
            &&& computed(nodes, l, inputs[0], flow)
            &&& computed(l.nodes, r, inputs[1], flow)
            &&& added(
                r.nodes,
                union_node(
                    r.nodes.len() as int + 1,
                    l.id,
                    r.id,
                    all,
                    source_identifier(inputs[0]),
                    source_identifier(inputs[1]),
                    schema,
                ),
            ) == Ok::<(Seq<NodeView>, int), ErrorView>((d.nodes, d.id))
        },
    ensures
        computed(nodes, d, plan, flow),
{
    let inputs = plan->Union_inputs;
    lemma_rows_out_stay(l.nodes, d.nodes, 0, l.id, flow);
    lemma_rows_out_stay(r.nodes, d.nodes, 0, r.id, flow);
    let node = d.nodes[d.id - 1];
    assert(node.inputs[0] as int == l.id);
    assert(node.inputs[1] as int == r.id);
    let out = rows_out(d.nodes, 0, d.id, flow);
    assert(out == either(answer(inputs[0], flow), answer(inputs[1], flow)));
    assert forall|row: Seq<Datum>| #[trigger] out(row) == answer(plan, flow)(row) by {}
    assert(out =~= answer(plan, flow));
    assert forall|k: int| 0 <= k < nodes.len() implies #[trigger] nodes[k] == d.nodes[k] by {
        assert(nodes[k] == l.nodes[k]);
        assert(l.nodes[k] == r.nodes[k]);
    }
}

proof fn lemma_values_listed(
    rows: Seq<Seq<LogicalExprView>>,
    plan: PlanView,
    flow: Flow,
)
    requires
        plan matches PlanView::Values { rows: list, .. } && list == rows,
        value_rows(rows) is Ok,
    ensures
        listed(value_rows(rows)->Ok_0) == answer(plan, flow),
{
    let list = value_rows(rows)->Ok_0;
    assert forall|row: Seq<Datum>| #[trigger] listed(list)(row) == answer(plan, flow)(row) by {
        if list.contains(row) {
            let i = choose|i: int| 0 <= i < list.len() && list[i] == row;
            assert(row.len() == rows[i].len());
            assert forall|j: int| 0 <= j < row.len() implies rows[i][j] == LogicalExprView::Literal(
                #[trigger] row[j],
            ) by {
                assert(is_literal(rows[i][j]));
            }
        }
        if answer(plan, flow)(row) {
            let i = choose|i: int|
                {
                    &&& 0 <= i < rows.len()
                    &&& row.len() == (#[trigger] rows[i]).len()
                    &&& forall|j: int|
                        0 <= j < row.len() ==> rows[i][j] == LogicalExprView::Literal(
                            #[trigger] row[j],
                        )
                };
            assert forall|j: int| 0 <= j < row.len() implies list[i][j] == #[trigger] row[j] by {
                assert(rows[i][j] == LogicalExprView::Literal(row[j]));
            }
            assert(list[i] =~= row);
        }
    }
    assert(listed(list) =~= answer(plan, flow));
}

/// The circuit of a plan lets through what the plan answers, whatever the tables hold.
///
/// That is for plans without recursion; what else is asked of the plan is that it fits.
pub proof fn law_a_circuit_lets_through_what_its_plan_answers(
    plan: PlanView,
    nodes: Seq<NodeView>,
    refs: Map<Seq<char>, usize>,
    flow: Flow,
)
    requires
        compiled_plan(plan, nodes, refs) is Ok,
        fitting(plan, flow),
        groups_well(flow),
        sensible(flow.sense),
    ensures
        ({
            let c = compiled_plan(plan, nodes, refs)->Ok_0;
            &&& nodes.len() <= c.nodes.len()
            &&& forall|k: int| 0 <= k < nodes.len() ==> #[trigger] nodes[k] == c.nodes[k]
            &&& 1 <= c.id <= c.nodes.len()
            &&& rows_out(c.nodes, 0, c.id, flow) == answer(plan, flow)
        }),
    decreases plan,
{
    let d = compiled_plan(plan, nodes, refs)->Ok_0;
    match plan {
        PlanView::Projection { input, .. } => {
            law_a_circuit_lets_through_what_its_plan_answers(*input, nodes, refs, flow);
            let c = compiled_plan(*input, nodes, refs)->Ok_0;
            lemma_projection_computed(nodes, c, d, plan, flow);
        },
        PlanView::Filter { input, .. } => {
            law_a_circuit_lets_through_what_its_plan_answers(*input, nodes, refs, flow);
            let c = compiled_plan(*input, nodes, refs)->Ok_0;
            lemma_filter_computed(nodes, c, d, plan, flow);
        },
        PlanView::Aggregate { input, .. } => {
            law_a_circuit_lets_through_what_its_plan_answers(*input, nodes, refs, flow);
            let c = compiled_plan(*input, nodes, refs)->Ok_0;
            lemma_aggregate_computed(nodes, c, d, plan, flow);
        },
        PlanView::Distinct { input } => {
            law_a_circuit_lets_through_what_its_plan_answers(*input, nodes, refs, flow);
            let c = compiled_plan(*input, nodes, refs)->Ok_0;
            lemma_distinct_computed(nodes, c, d, plan, flow);
        },
        PlanView::Join { left, right, join_type, on, filter, schema } => {
            law_a_circuit_lets_through_what_its_plan_answers(*left, nodes, refs, flow);
            let l = compiled_plan(*left, nodes, refs)->Ok_0;
            law_a_circuit_lets_through_what_its_plan_answers(*right, l.nodes, l.refs, flow);
            let r = compiled_plan(*right, l.nodes, l.refs)->Ok_0;
            assert(r.nodes.take(r.nodes.len() as int) =~= r.nodes);
            lemma_join_extends(
                r.nodes,
                r.nodes,
                l.id,
                r.id,
                join_type,
                on,
                match filter {
                    Some(f) => Some(*f),
                    None => None,
                },
                schema_of(*left),
                schema_of(*right),
                schema,
            );
            lemma_join_computed(nodes, l, r, d, plan, flow);
        },
        PlanView::Union { inputs, .. } => {
            assert(decreases_to!(plan => inputs[0]));
            assert(decreases_to!(plan => inputs[1]));
            law_a_circuit_lets_through_what_its_plan_answers(inputs[0], nodes, refs, flow);
            let l = compiled_plan(inputs[0], nodes, refs)->Ok_0;
            law_a_circuit_lets_through_what_its_plan_answers(inputs[1], l.nodes, l.refs, flow);
            let r = compiled_plan(inputs[1], l.nodes, l.refs)->Ok_0;
            lemma_union_computed(nodes, l, r, d, plan, flow);
        },
        PlanView::Sort { input, .. } => {
            law_a_circuit_lets_through_what_its_plan_answers(*input, nodes, refs, flow);
        },
        PlanView::Limit { input, .. } => {
            law_a_circuit_lets_through_what_its_plan_answers(*input, nodes, refs, flow);
        },
        PlanView::TableScan { .. } => {},
        PlanView::EmptyRelation { produce_one_row, .. } => {
            let list = relation_rows(produce_one_row);
            assert forall|row: Seq<Datum>| #[trigger] listed(list)(row) == answer(plan, flow)(
                row,
            ) by {
                if answer(plan, flow)(row) {
                    assert(list[0] =~= row);
                }
            }
            assert(listed(list) =~= answer(plan, flow));
        },
        PlanView::Values { rows, .. } => {
            lemma_values_listed(rows, plan, flow);
        },
        _ => {},
    }
}

/// Aggregates over one column under different filters are refused, and no others on that account: the
/// state of an aggregate is kept for its column.
pub proof fn law_aggregates_of_a_column_share_their_filter(
    nodes: Seq<NodeView>,
    input: int,
    in_schema: Seq<ColumnInfoView>,
    group_expr: Seq<LogicalExprView>,
    aggr_expr: Seq<LogicalExprView>,
    schema: Seq<ColumnInfoView>,
    t: Tests,
)
    requires
        group_keys(group_expr, in_schema) is Ok,
        aggregates_of(aggr_expr, in_schema) is Ok,
        nodes.len() < MAX_NODES,
    ensures
        aggregate_built(nodes, input, in_schema, group_expr, aggr_expr, schema) is Ok <==> forall|
            i: int,
            j: int,
        |
            0 <= i < j < aggr_expr.len() ==> {
                let a = call_asked(#[trigger] aggr_expr[i], in_schema, t).column;
                let b = call_asked(#[trigger] aggr_expr[j], in_schema, t).column;
                a is Some && a == b ==> aggregate_of(aggr_expr[i], in_schema)->Ok_0.1
                    == aggregate_of(aggr_expr[j], in_schema)->Ok_0.1
            },
{
    reveal(aggregate_built);
    lemma_aggregates(aggr_expr, in_schema);
    let list = aggregates_of(aggr_expr, in_schema)->Ok_0;
    assert forall|i: int| 0 <= i < aggr_expr.len() implies function_column(
        (#[trigger] list[i]).0,
    ) == call_asked(aggr_expr[i], in_schema, t).column && list[i].1 == aggregate_of(
        aggr_expr[i],
        in_schema,
    )->Ok_0.1 by {
        assert(aggregate_of(aggr_expr[i], in_schema) is Ok);
        law_an_aggregate_function_does_what_is_asked(aggr_expr[i], in_schema, t);
    }
    let good = forall|i: int, j: int|
        0 <= i < j < aggr_expr.len() ==> {
            let a = call_asked(#[trigger] aggr_expr[i], in_schema, t).column;
            let b = call_asked(#[trigger] aggr_expr[j], in_schema, t).column;
            a is Some && a == b ==> aggregate_of(aggr_expr[i], in_schema)->Ok_0.1 == aggregate_of(
                aggr_expr[j],
                in_schema,
            )->Ok_0.1
        };
    if good {
        assert forall|i: int, j: int| 0 <= i < j < list.len() implies !#[trigger] clash(
            list,
            i,
            j,
        ) by {
            let a = call_asked(aggr_expr[i], in_schema, t).column;
            let b = call_asked(aggr_expr[j], in_schema, t).column;
            assert(function_column(list[i].0) == a);
            assert(function_column(list[j].0) == b);
        }
        assert(clashing_column(list) is None);
    } else {
        let (i, j) = choose|i: int, j: int|
            0 <= i < j < aggr_expr.len() && !({
                let a = call_asked(#[trigger] aggr_expr[i], in_schema, t).column;
                let b = call_asked(#[trigger] aggr_expr[j], in_schema, t).column;
                a is Some && a == b ==> aggregate_of(aggr_expr[i], in_schema)->Ok_0.1
                    == aggregate_of(aggr_expr[j], in_schema)->Ok_0.1
            });
        assert(function_column(list[i].0) == call_asked(aggr_expr[i], in_schema, t).column);
        assert(function_column(list[j].0) == call_asked(aggr_expr[j], in_schema, t).column);
        assert(clash(list, i, j));
        lemma_first_clash(list, i, j);
        let at = choose|at: int| first_clash(list, at);
        let k = choose|k: int| 0 <= k < at && #[trigger] clash(list, k, at);
        assert(function_column(list[at].0) is Some);
        assert(clashing_column(list) is Some);
    }
}

/// Where aggregates clash, one of them is the first to.
proof fn lemma_first_clash(list: Aggregates, i: int, j: int)
    requires
        0 <= i < j < list.len(),
        clash(list, i, j),
    ensures
        exists|at: int| first_clash(list, at),
    decreases j,
{
    if forall|a: int, b: int| 0 <= a < b < j ==> !#[trigger] clash(list, a, b) {
        assert(first_clash(list, j));
    } else {
        let (a, b) = choose|a: int, b: int| 0 <= a < b < j && #[trigger] clash(list, a, b);
        lemma_first_clash(list, a, b);
    }
}

} // verus!
