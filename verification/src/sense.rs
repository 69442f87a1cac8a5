//! What expressions come to on a row, as a plan has them and as a circuit evaluates them.

use vstd::prelude::*;

use crate::ast::{BinaryOperator, ExprView, LiteralView, UnaryOperator};
use crate::expr::{compiled_of, literal_of, refs_of, refs_of_list, tree_of, trees_of};
use crate::logical::{AggFunc, ColumnInfoView, ColumnRefView, LogicalExprView};
use crate::plan::column_position;
use crate::value::Datum;

verus! {

/// What the operators and functions of SQL make of values.
pub struct Sense {
    pub literal: spec_fn(LiteralView) -> Datum,
    pub binary: spec_fn(BinaryOperator, Datum, Datum) -> Datum,
    pub unary: spec_fn(UnaryOperator, Datum) -> Datum,
    pub is_null: spec_fn(Datum) -> Datum,
    /// By name, with DISTINCT or without.
    pub call: spec_fn(Seq<char>, bool, Seq<Datum>) -> Datum,
    /// Whether a value is in a list, or is not in it.
    pub among: spec_fn(Datum, bool, Seq<Datum>) -> Datum,
    /// Whether a text is like a pattern, or is not like it.
    pub like: spec_fn(Datum, bool, Datum, Option<Seq<char>>) -> Datum,
    pub cast: spec_fn(Datum, Option<Seq<char>>) -> Datum,
}

/// Whether literals are read as the values that they were written for, and NOT is read as in SQL: it
/// turns AND into OR and a comparison into its opposite.
pub open spec fn sensible(s: Sense) -> bool {
    &&& forall|v: Datum| (s.literal)(#[trigger] literal_of(v)) == v
    &&& forall|a: Datum, b: Datum|
        #[trigger] (s.unary)(UnaryOperator::Not, (s.binary)(BinaryOperator::And, a, b)) == (
        s.binary)(
            BinaryOperator::Or,
            (s.unary)(UnaryOperator::Not, a),
            (s.unary)(UnaryOperator::Not, b),
        )
    &&& forall|a: Datum, b: Datum|
        #[trigger] (s.unary)(UnaryOperator::Not, (s.binary)(BinaryOperator::GreaterEquals, a, b))
            == (s.binary)(BinaryOperator::Less, a, b)
    &&& forall|a: Datum, b: Datum|
        #[trigger] (s.unary)(UnaryOperator::Not, (s.binary)(BinaryOperator::LessEquals, a, b)) == (
        s.binary)(BinaryOperator::Greater, a, b)
}

/// The value of a syntax tree whose registers are the columns of a row.
pub open spec fn tree_value(e: ExprView, row: Seq<Datum>, s: Sense) -> Datum
    decreases e,
{
    match e {
        ExprView::Literal(l) => (s.literal)(l),
        ExprView::Register(i) => row[i],
        ExprView::Binary(a, op, b) => (s.binary)(
            op,
            tree_value(*a, row, s),
            tree_value(*b, row, s),
        ),
        ExprView::Unary(op, a) => (s.unary)(op, tree_value(*a, row, s)),
        ExprView::FunctionCall { name, distinct, args } => (s.call)(
            name,
            distinct,
            tree_values(args, row, s),
        ),
        ExprView::IsNull(a) => (s.is_null)(tree_value(*a, row, s)),
        ExprView::InList { lhs, not, rhs } => (s.among)(
            tree_value(*lhs, row, s),
            not,
            tree_values(rhs, row, s),
        ),
        ExprView::Like { lhs, not, rhs, escape } => (s.like)(
            tree_value(*lhs, row, s),
            not,
            tree_value(*rhs, row, s),
            escape,
        ),
        ExprView::Cast { expr, cast_type } => (s.cast)(tree_value(*expr, row, s), cast_type),
        _ => Datum::Null,
    }
}

pub open spec fn tree_values(list: Seq<ExprView>, row: Seq<Datum>, s: Sense) -> Seq<Datum>
    decreases list,
{
    if list.len() == 0 {
        Seq::empty()
    } else {
        tree_values(list.drop_last(), row, s).push(tree_value(list.last(), row, s))
    }
}

/// The value of an expression on a row of a schema. BETWEEN takes in both its ends, and NOT BETWEEN
/// and IS NOT NULL are negations.
pub open spec fn value_on(
    e: LogicalExprView,
    schema: Seq<ColumnInfoView>,
    row: Seq<Datum>,
    s: Sense,
) -> Datum
    decreases e,
{
    match e {
        LogicalExprView::Column(c) => match column_position(schema, c.name, c.table) {
            Some(i) => row[i],
            None => Datum::Null,
        },
        LogicalExprView::Literal(v) => v,
        LogicalExprView::BinaryExpr { left, op, right } => (s.binary)(
            op,
            value_on(*left, schema, row, s),
            value_on(*right, schema, row, s),
        ),
        LogicalExprView::ScalarFunction { name, args } => (s.call)(
            name,
            false,
            values_on(args, schema, row, s),
        ),
        LogicalExprView::Alias { expr, .. } => value_on(*expr, schema, row, s),
        LogicalExprView::AggregateFunction { fun, args, distinct, .. } => (s.call)(
            match fun {
                AggFunc::Count => "COUNT"@,
                AggFunc::Sum => "SUM"@,
                AggFunc::Avg => "AVG"@,
                AggFunc::Min => "MIN"@,
                AggFunc::Max => "MAX"@,
                _ => Seq::empty(),
            },
            distinct,
            values_on(args, schema, row, s),
        ),
        LogicalExprView::Between { expr, low, high, negated } => {
            let x = value_on(*expr, schema, row, s);
            let inside = (s.binary)(
                BinaryOperator::And,
                (s.binary)(BinaryOperator::GreaterEquals, x, value_on(*low, schema, row, s)),
                (s.binary)(BinaryOperator::LessEquals, x, value_on(*high, schema, row, s)),
            );
            if negated {
                (s.unary)(UnaryOperator::Not, inside)
            } else {
                inside
            }
        },
        LogicalExprView::InList { expr, list, negated } => (s.among)(
            value_on(*expr, schema, row, s),
            negated,
            values_on(list, schema, row, s),
        ),
        LogicalExprView::Like { expr, pattern, escape, negated } => (s.like)(
            value_on(*expr, schema, row, s),
            negated,
            value_on(*pattern, schema, row, s),
            escape,
        ),
        LogicalExprView::IsNull { expr, negated } => {
            let absent = (s.is_null)(value_on(*expr, schema, row, s));
            if negated {
                (s.unary)(UnaryOperator::Not, absent)
            } else {
                absent
            }
        },
        LogicalExprView::Cast { expr, cast_type } => (s.cast)(
            value_on(*expr, schema, row, s),
            cast_type,
        ),
        _ => Datum::Null,
    }
}

pub open spec fn values_on(
    list: Seq<LogicalExprView>,
    schema: Seq<ColumnInfoView>,
    row: Seq<Datum>,
    s: Sense,
) -> Seq<Datum>
    decreases list,
{
    if list.len() == 0 {
        Seq::empty()
    } else {
        values_on(list.drop_last(), schema, row, s).push(value_on(list.last(), schema, row, s))
    }
}

/// The syntax tree of an expression has the value of the expression, on every row and whatever the
/// operators and functions make of values.
pub proof fn law_a_tree_has_the_value_of_its_expression(
    e: LogicalExprView,
    schema: Seq<ColumnInfoView>,
    row: Seq<Datum>,
    s: Sense,
)
    requires
        sensible(s),
        tree_of(e, schema) is Ok,
    ensures
        tree_value(tree_of(e, schema)->Ok_0, row, s) == value_on(e, schema, row, s),
    decreases e,
{
    let t = tree_of(e, schema)->Ok_0;
    match e {
        LogicalExprView::Column(c) => {},
        LogicalExprView::Literal(v) => {
            assert((s.literal)(literal_of(v)) == v);
        },
        LogicalExprView::BinaryExpr { left, op, right } => {
            law_a_tree_has_the_value_of_its_expression(*left, schema, row, s);
            law_a_tree_has_the_value_of_its_expression(*right, schema, row, s);
        },
        LogicalExprView::ScalarFunction { name, args } => {
            lemma_tree_values(args, schema, row, s);
        },
        LogicalExprView::Alias { expr, .. } => {
            law_a_tree_has_the_value_of_its_expression(*expr, schema, row, s);
        },
        LogicalExprView::AggregateFunction { args, .. } => {
            lemma_tree_values(args, schema, row, s);
        },
        LogicalExprView::Between { expr, low, high, negated } => {
            law_a_tree_has_the_value_of_its_expression(*expr, schema, row, s);
            law_a_tree_has_the_value_of_its_expression(*low, schema, row, s);
            law_a_tree_has_the_value_of_its_expression(*high, schema, row, s);
            let x = value_on(*expr, schema, row, s);
            let l = value_on(*low, schema, row, s);
            let h = value_on(*high, schema, row, s);
            let first = *t->Binary_0;
            let second = *t->Binary_2;
            reveal_with_fuel(tree_value, 3);
            if negated {
                let above = (s.binary)(BinaryOperator::GreaterEquals, x, l);
                let below = (s.binary)(BinaryOperator::LessEquals, x, h);
                assert(tree_value(first, row, s) == (s.binary)(BinaryOperator::Less, x, l));
                assert(tree_value(second, row, s) == (s.binary)(BinaryOperator::Greater, x, h));
                assert((s.unary)(UnaryOperator::Not, above) == (s.binary)(
                    BinaryOperator::Less,
                    x,
                    l,
                ));
                assert((s.unary)(UnaryOperator::Not, below) == (s.binary)(
                    BinaryOperator::Greater,
                    x,
                    h,
                ));
                assert((s.unary)(
                    UnaryOperator::Not,
                    (s.binary)(BinaryOperator::And, above, below),
                ) == (s.binary)(
                    BinaryOperator::Or,
                    (s.unary)(UnaryOperator::Not, above),
                    (s.unary)(UnaryOperator::Not, below),
                ));
            }
        },
        LogicalExprView::InList { expr, list, .. } => {
            law_a_tree_has_the_value_of_its_expression(*expr, schema, row, s);
            lemma_tree_values(list, schema, row, s);
        },
        LogicalExprView::Like { expr, pattern, .. } => {
            law_a_tree_has_the_value_of_its_expression(*expr, schema, row, s);
            law_a_tree_has_the_value_of_its_expression(*pattern, schema, row, s);
        },
        LogicalExprView::IsNull { expr, negated } => {
            law_a_tree_has_the_value_of_its_expression(*expr, schema, row, s);
            reveal_with_fuel(tree_value, 3);
        },
        LogicalExprView::Cast { expr, .. } => {
            law_a_tree_has_the_value_of_its_expression(*expr, schema, row, s);
        },
        _ => {},
    }
}

proof fn lemma_tree_values(
    list: Seq<LogicalExprView>,
    schema: Seq<ColumnInfoView>,
    row: Seq<Datum>,
    s: Sense,
)
    requires
        sensible(s),
        trees_of(list, schema) is Ok,
    ensures
        tree_values(trees_of(list, schema)->Ok_0, row, s) == values_on(list, schema, row, s),
    decreases list,
{
    if list.len() > 0 {
        lemma_tree_values(list.drop_last(), schema, row, s);
        law_a_tree_has_the_value_of_its_expression(list.last(), schema, row, s);
        let trees = trees_of(list, schema)->Ok_0;
        assert(trees.drop_last() =~= trees_of(list.drop_last(), schema)->Ok_0);
    } else {
        assert(trees_of(list, schema)->Ok_0 =~= Seq::<ExprView>::empty());
    }
}

/// A compiled expression has the value of the expression, with its aliases or without.
pub proof fn law_a_compiled_expression_has_the_value_of_its_expression(
    e: LogicalExprView,
    schema: Seq<ColumnInfoView>,
    row: Seq<Datum>,
    s: Sense,
)
    requires
        sensible(s),
        compiled_of(e, schema) is Ok,
    ensures
        tree_value(compiled_of(e, schema)->Ok_0.0.tree, row, s) == value_on(e, schema, row, s),
        compiled_of(e, schema)->Ok_0.1 == (match e {
            LogicalExprView::Alias { alias, .. } => Some(alias),
            _ => None,
        }),
    decreases e,
{
    match e {
        LogicalExprView::Alias { expr, .. } => {
            law_a_compiled_expression_has_the_value_of_its_expression(*expr, schema, row, s);
        },
        _ => {
            law_a_tree_has_the_value_of_its_expression(e, schema, row, s);
        },
    }
}

// What the value of an expression depends on.

/// Whether two rows agree in the columns of a schema that some references name.
pub open spec fn agree(
    refs: Seq<ColumnRefView>,
    schema: Seq<ColumnInfoView>,
    a: Seq<Datum>,
    b: Seq<Datum>,
) -> bool {
    forall|i: int|
        0 <= i < refs.len() ==> (column_position(
            schema,
            (#[trigger] refs[i]).name,
            refs[i].table,
        ) matches Some(p) ==> a[p] == b[p])
}

proof fn lemma_agree_concat(
    x: Seq<ColumnRefView>,
    y: Seq<ColumnRefView>,
    schema: Seq<ColumnInfoView>,
    a: Seq<Datum>,
    b: Seq<Datum>,
)
    requires
        agree(x + y, schema, a, b),
    ensures
        agree(x, schema, a, b),
        agree(y, schema, a, b),
{
    let both = x + y;
    assert forall|i: int| 0 <= i < x.len() implies (column_position(
        schema,
        (#[trigger] x[i]).name,
        x[i].table,
    ) matches Some(p) ==> a[p] == b[p]) by {
        assert(both[i] == x[i]);
    }
    assert forall|i: int| 0 <= i < y.len() implies (column_position(
        schema,
        (#[trigger] y[i]).name,
        y[i].table,
    ) matches Some(p) ==> a[p] == b[p]) by {
        assert(both[x.len() + i] == y[i]);
    }
}

/// The value of an expression depends on no other columns than those that it is said to read.
pub proof fn law_a_value_depends_on_the_columns_that_are_read(
    e: LogicalExprView,
    schema: Seq<ColumnInfoView>,
    a: Seq<Datum>,
    b: Seq<Datum>,
    s: Sense,
)
    requires
        agree(refs_of(e), schema, a, b),
    ensures
        value_on(e, schema, a, s) == value_on(e, schema, b, s),
    decreases e,
{
    match e {
        LogicalExprView::Column(c) => {
            assert(refs_of(e)[0] == c);
        },
        LogicalExprView::BinaryExpr { left, right, .. } => {
            lemma_agree_concat(refs_of(*left), refs_of(*right), schema, a, b);
            law_a_value_depends_on_the_columns_that_are_read(*left, schema, a, b, s);
            law_a_value_depends_on_the_columns_that_are_read(*right, schema, a, b, s);
        },
        LogicalExprView::ScalarFunction { args, .. } => {
            lemma_values_depend(args, schema, a, b, s);
        },
        LogicalExprView::AggregateFunction { args, .. } => {
            lemma_values_depend(args, schema, a, b, s);
        },
        LogicalExprView::Alias { expr, .. } => {
            law_a_value_depends_on_the_columns_that_are_read(*expr, schema, a, b, s);
        },
        LogicalExprView::Between { expr, low, high, .. } => {
            lemma_agree_concat(refs_of(*expr) + refs_of(*low), refs_of(*high), schema, a, b);
            lemma_agree_concat(refs_of(*expr), refs_of(*low), schema, a, b);
            law_a_value_depends_on_the_columns_that_are_read(*expr, schema, a, b, s);
            law_a_value_depends_on_the_columns_that_are_read(*low, schema, a, b, s);
            law_a_value_depends_on_the_columns_that_are_read(*high, schema, a, b, s);
        },
        LogicalExprView::InList { expr, list, .. } => {
            lemma_agree_concat(refs_of(*expr), refs_of_list(list), schema, a, b);
            law_a_value_depends_on_the_columns_that_are_read(*expr, schema, a, b, s);
            lemma_values_depend(list, schema, a, b, s);
        },
        LogicalExprView::Like { expr, pattern, .. } => {
            lemma_agree_concat(refs_of(*expr), refs_of(*pattern), schema, a, b);
            law_a_value_depends_on_the_columns_that_are_read(*expr, schema, a, b, s);
            law_a_value_depends_on_the_columns_that_are_read(*pattern, schema, a, b, s);
        },
        LogicalExprView::IsNull { expr, .. } => {
            law_a_value_depends_on_the_columns_that_are_read(*expr, schema, a, b, s);
        },
        LogicalExprView::Cast { expr, .. } => {
            law_a_value_depends_on_the_columns_that_are_read(*expr, schema, a, b, s);
        },
        _ => {},
    }
}

proof fn lemma_values_depend(
    list: Seq<LogicalExprView>,
    schema: Seq<ColumnInfoView>,
    a: Seq<Datum>,
    b: Seq<Datum>,
    s: Sense,
)
    requires
        agree(refs_of_list(list), schema, a, b),
    ensures
        values_on(list, schema, a, s) == values_on(list, schema, b, s),
    decreases list,
{
    if list.len() > 0 {
        lemma_agree_concat(
            refs_of_list(list.drop_last()),
            refs_of(list.last()),
            schema,
            a,
            b,
        );
        lemma_values_depend(list.drop_last(), schema, a, b, s);
        law_a_value_depends_on_the_columns_that_are_read(list.last(), schema, a, b, s);
    }
}

} // verus!
