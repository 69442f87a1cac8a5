//! Predicates that the filter operator can evaluate, and their compilation.

use vstd::prelude::*;

use crate::ast::{text_view, BinaryOperator};
use crate::error::{ErrorView, LimboError};
use crate::logical::{
    Column, ColumnInfoView, ColumnRefView, LogicalExpr, LogicalExprView, LogicalSchema,
};
use crate::plan::copy_expr;
use crate::seqs::{first_where, lemma_first_where, lemma_is_first_where, lemma_none_where};
use crate::show::{logical_text, write_logical};
use crate::text::{after_last_dot, same_text, tail_after_dot};
use crate::value::{int_datum, Datum, Value};

verus! {

/// A predicate on a row.
#[allow(inconsistent_fields)]
#[derive(Debug, PartialEq, Eq)]
pub enum FilterPredicate {
    Equals { column_idx: usize, value: Value },
    NotEquals { column_idx: usize, value: Value },
    GreaterThan { column_idx: usize, value: Value },
    GreaterThanOrEqual { column_idx: usize, value: Value },
    LessThan { column_idx: usize, value: Value },
    LessThanOrEqual { column_idx: usize, value: Value },
    ColumnEquals { left_idx: usize, right_idx: usize },
    ColumnNotEquals { left_idx: usize, right_idx: usize },
    ColumnGreaterThan { left_idx: usize, right_idx: usize },
    ColumnGreaterThanOrEqual { left_idx: usize, right_idx: usize },
    ColumnLessThan { left_idx: usize, right_idx: usize },
    ColumnLessThanOrEqual { left_idx: usize, right_idx: usize },
    IsNull { column_idx: usize },
    IsNotNull { column_idx: usize },
    And(Box<FilterPredicate>, Box<FilterPredicate>),
    Or(Box<FilterPredicate>, Box<FilterPredicate>),
}

/// What a predicate says. A comparison is one of the six comparison operators.
#[allow(inconsistent_fields)]
#[verifier::ext_equal]
pub enum FilterView {
    Value { op: BinaryOperator, column: int, value: Datum },
    Columns { op: BinaryOperator, left: int, right: int },
    IsNull { column: int },
    IsNotNull { column: int },
    And(Box<FilterView>, Box<FilterView>),
    Or(Box<FilterView>, Box<FilterView>),
}

pub open spec fn value_test(op: BinaryOperator, column: usize, value: Value) -> FilterView {
    FilterView::Value { op, column: column as int, value: value@ }
}

pub open spec fn columns_test(op: BinaryOperator, left: usize, right: usize) -> FilterView {
    FilterView::Columns { op, left: left as int, right: right as int }
}

impl FilterPredicate {
    pub open spec fn view(&self) -> FilterView
        decreases self,
    {
        match self {
            FilterPredicate::Equals { column_idx, value } => value_test(
                BinaryOperator::Equals,
                *column_idx,
                *value,
            ),
            FilterPredicate::NotEquals { column_idx, value } => value_test(
                BinaryOperator::NotEquals,
                *column_idx,
                *value,
            ),
            FilterPredicate::GreaterThan { column_idx, value } => value_test(
                BinaryOperator::Greater,
                *column_idx,
                *value,
            ),
            FilterPredicate::GreaterThanOrEqual { column_idx, value } => value_test(
                BinaryOperator::GreaterEquals,
                *column_idx,
                *value,
            ),
            FilterPredicate::LessThan { column_idx, value } => value_test(
                BinaryOperator::Less,
                *column_idx,
                *value,
            ),
            FilterPredicate::LessThanOrEqual { column_idx, value } => value_test(
                BinaryOperator::LessEquals,
                *column_idx,
                *value,
            ),
            FilterPredicate::ColumnEquals { left_idx, right_idx } => columns_test(
                BinaryOperator::Equals,
                *left_idx,
                *right_idx,
            ),
            FilterPredicate::ColumnNotEquals { left_idx, right_idx } => columns_test(
                BinaryOperator::NotEquals,
                *left_idx,
                *right_idx,
            ),
            FilterPredicate::ColumnGreaterThan { left_idx, right_idx } => columns_test(
                BinaryOperator::Greater,
                *left_idx,
                *right_idx,
            ),
            FilterPredicate::ColumnGreaterThanOrEqual { left_idx, right_idx } => columns_test(
                BinaryOperator::GreaterEquals,
                *left_idx,
                *right_idx,
            ),
            FilterPredicate::ColumnLessThan { left_idx, right_idx } => columns_test(
                BinaryOperator::Less,
                *left_idx,
                *right_idx,
            ),
            FilterPredicate::ColumnLessThanOrEqual { left_idx, right_idx } => columns_test(
                BinaryOperator::LessEquals,
                *left_idx,
                *right_idx,
            ),
            FilterPredicate::IsNull { column_idx } => FilterView::IsNull {
                column: *column_idx as int,
            },
            FilterPredicate::IsNotNull { column_idx } => FilterView::IsNotNull {
                column: *column_idx as int,
            },
            FilterPredicate::And(a, b) => FilterView::And(Box::new(a.view()), Box::new(b.view())),
            FilterPredicate::Or(a, b) => FilterView::Or(Box::new(a.view()), Box::new(b.view())),
        }
    }

    /// Whether two predicates are the same.
    pub fn same(&self, other: &FilterPredicate) -> (r: bool)
        ensures
            r == (self.view() == other.view()),
        decreases self,
    {
        match (self, other) {
            (
                FilterPredicate::Equals { column_idx: c1, value: v1 },
                FilterPredicate::Equals { column_idx: c2, value: v2 },
            ) => *c1 == *c2 && v1.same(v2),
            (
                FilterPredicate::NotEquals { column_idx: c1, value: v1 },
                FilterPredicate::NotEquals { column_idx: c2, value: v2 },
            ) => *c1 == *c2 && v1.same(v2),
            (
                FilterPredicate::GreaterThan { column_idx: c1, value: v1 },
                FilterPredicate::GreaterThan { column_idx: c2, value: v2 },
            ) => *c1 == *c2 && v1.same(v2),
            (
                FilterPredicate::GreaterThanOrEqual { column_idx: c1, value: v1 },
                FilterPredicate::GreaterThanOrEqual { column_idx: c2, value: v2 },
            ) => *c1 == *c2 && v1.same(v2),
            (
                FilterPredicate::LessThan { column_idx: c1, value: v1 },
                FilterPredicate::LessThan { column_idx: c2, value: v2 },
            ) => *c1 == *c2 && v1.same(v2),
            (
                FilterPredicate::LessThanOrEqual { column_idx: c1, value: v1 },
                FilterPredicate::LessThanOrEqual { column_idx: c2, value: v2 },
            ) => *c1 == *c2 && v1.same(v2),
            (
                FilterPredicate::ColumnEquals { left_idx: l1, right_idx: r1 },
                FilterPredicate::ColumnEquals { left_idx: l2, right_idx: r2 },
            ) => *l1 == *l2 && *r1 == *r2,
            (
                FilterPredicate::ColumnNotEquals { left_idx: l1, right_idx: r1 },
                FilterPredicate::ColumnNotEquals { left_idx: l2, right_idx: r2 },
            ) => *l1 == *l2 && *r1 == *r2,
            (
                FilterPredicate::ColumnGreaterThan { left_idx: l1, right_idx: r1 },
                FilterPredicate::ColumnGreaterThan { left_idx: l2, right_idx: r2 },
            ) => *l1 == *l2 && *r1 == *r2,
            (
                FilterPredicate::ColumnGreaterThanOrEqual { left_idx: l1, right_idx: r1 },
                FilterPredicate::ColumnGreaterThanOrEqual { left_idx: l2, right_idx: r2 },
            ) => *l1 == *l2 && *r1 == *r2,
            (
                FilterPredicate::ColumnLessThan { left_idx: l1, right_idx: r1 },
                FilterPredicate::ColumnLessThan { left_idx: l2, right_idx: r2 },
            ) => *l1 == *l2 && *r1 == *r2,
            (
                FilterPredicate::ColumnLessThanOrEqual { left_idx: l1, right_idx: r1 },
                FilterPredicate::ColumnLessThanOrEqual { left_idx: l2, right_idx: r2 },
            ) => *l1 == *l2 && *r1 == *r2,
            (
                FilterPredicate::IsNull { column_idx: c1 },
                FilterPredicate::IsNull { column_idx: c2 },
            ) => *c1 == *c2,
            (
                FilterPredicate::IsNotNull { column_idx: c1 },
                FilterPredicate::IsNotNull { column_idx: c2 },
            ) => *c1 == *c2,
            (FilterPredicate::And(a1, b1), FilterPredicate::And(a2, b2)) => a1.same(a2) && b1.same(
                b2,
            ),
            (FilterPredicate::Or(a1, b1), FilterPredicate::Or(a2, b2)) => a1.same(a2) && b1.same(
                b2,
            ),
            _ => false,
        }
    }
}

/// The name of an operator, for a message.
pub open spec fn operator_name(op: BinaryOperator) -> Seq<char> {
    match op {
        BinaryOperator::Add => "Add"@,
        BinaryOperator::And => "And"@,
        BinaryOperator::ArrowRight => "ArrowRight"@,
        BinaryOperator::ArrowRightShift => "ArrowRightShift"@,
        BinaryOperator::BitwiseAnd => "BitwiseAnd"@,
        BinaryOperator::BitwiseOr => "BitwiseOr"@,
        BinaryOperator::Concat => "Concat"@,
        BinaryOperator::Equals => "Equals"@,
        BinaryOperator::Divide => "Divide"@,
        BinaryOperator::Greater => "Greater"@,
        BinaryOperator::GreaterEquals => "GreaterEquals"@,
        BinaryOperator::Is => "Is"@,
        BinaryOperator::IsNot => "IsNot"@,
        BinaryOperator::LeftShift => "LeftShift"@,
        BinaryOperator::Less => "Less"@,
        BinaryOperator::LessEquals => "LessEquals"@,
        BinaryOperator::Modulus => "Modulus"@,
        BinaryOperator::Multiply => "Multiply"@,
        BinaryOperator::NotEquals => "NotEquals"@,
        BinaryOperator::Or => "Or"@,
        BinaryOperator::RightShift => "RightShift"@,
        BinaryOperator::Subtract => "Subtract"@,
    }
}

pub fn operator_name_str(op: BinaryOperator) -> (r: &'static str)
    ensures
        r@ == operator_name(op),
{
    match op {
        BinaryOperator::Add => "Add",
        BinaryOperator::And => "And",
        BinaryOperator::ArrowRight => "ArrowRight",
        BinaryOperator::ArrowRightShift => "ArrowRightShift",
        BinaryOperator::BitwiseAnd => "BitwiseAnd",
        BinaryOperator::BitwiseOr => "BitwiseOr",
        BinaryOperator::Concat => "Concat",
        BinaryOperator::Equals => "Equals",
        BinaryOperator::Divide => "Divide",
        BinaryOperator::Greater => "Greater",
        BinaryOperator::GreaterEquals => "GreaterEquals",
        BinaryOperator::Is => "Is",
        BinaryOperator::IsNot => "IsNot",
        BinaryOperator::LeftShift => "LeftShift",
        BinaryOperator::Less => "Less",
        BinaryOperator::LessEquals => "LessEquals",
        BinaryOperator::Modulus => "Modulus",
        BinaryOperator::Multiply => "Multiply",
        BinaryOperator::NotEquals => "NotEquals",
        BinaryOperator::Or => "Or",
        BinaryOperator::RightShift => "RightShift",
        BinaryOperator::Subtract => "Subtract",
    }
}

/// One of the six comparisons.
pub open spec fn is_comparison(op: BinaryOperator) -> bool {
    op == BinaryOperator::Equals || op == BinaryOperator::NotEquals || op == BinaryOperator::Greater
        || op == BinaryOperator::GreaterEquals || op == BinaryOperator::Less || op
        == BinaryOperator::LessEquals
}

/// AND or OR.
pub open spec fn is_connective(op: BinaryOperator) -> bool {
    op == BinaryOperator::And || op == BinaryOperator::Or
}

fn comparison(op: BinaryOperator) -> (r: bool)
    ensures
        r == is_comparison(op),
{
    op == BinaryOperator::Equals || op == BinaryOperator::NotEquals || op == BinaryOperator::Greater
        || op == BinaryOperator::GreaterEquals || op == BinaryOperator::Less || op
        == BinaryOperator::LessEquals
}

fn connective(op: BinaryOperator) -> (r: bool)
    ensures
        r == is_connective(op),
{
    op == BinaryOperator::And || op == BinaryOperator::Or
}

/// A column or a literal.
pub open spec fn is_simple(e: LogicalExprView) -> bool {
    e is Column || e is Literal
}

fn simple(e: &LogicalExpr) -> (r: bool)
    ensures
        r == is_simple(e.view()),
{
    match e {
        LogicalExpr::Column(_) => true,
        LogicalExpr::Literal(_) => true,
        _ => false,
    }
}

/// Whether a predicate holds an expression that has to be computed before it can be filtered on.
///
/// What need not is a comparison of a column with a literal or a column, a NULL test of a column,
/// a column, a literal, and any AND or OR of these.
pub open spec fn needs_projection(e: LogicalExprView) -> bool
    decreases e,
{
    match e {
        LogicalExprView::BinaryExpr { left, op, right } => if is_comparison(op) && *left is Column
            && is_simple(*right) {
            false
        } else if is_connective(op) {
            needs_projection(*left) || needs_projection(*right)
        } else {
            true
        },
        LogicalExprView::Column(_) => false,
        LogicalExprView::Literal(_) => false,
        LogicalExprView::IsNull { expr, .. } => !(*expr is Column),
        _ => true,
    }
}

/// Tells whether a predicate holds an expression that has to be computed first.
pub fn predicate_needs_projection(e: &LogicalExpr) -> (r: bool)
    ensures
        r == needs_projection(e.view()),
    decreases e,
{
    match e {
        LogicalExpr::BinaryExpr { left, op, right } => {
            let left_is_column = match &**left {
                LogicalExpr::Column(_) => true,
                _ => false,
            };
            assert(left_is_column == (left.view() is Column));
            if comparison(*op) && left_is_column && simple(right) {
                false
            } else if connective(*op) {
                predicate_needs_projection(left) || predicate_needs_projection(right)
            } else {
                true
            }
        },
        LogicalExpr::Column(_) => false,
        LogicalExpr::Literal(_) => false,
        LogicalExpr::IsNull { expr, negated: _ } => {
            assert((**expr is Column) == (expr.view() is Column));
            match &**expr {
                LogicalExpr::Column(_) => false,
                _ => true,
            }
        },
        _ => true,
    }
}

/// The expression of a predicate that has to be computed: the first one, from left to right.
pub open spec fn extracted(e: LogicalExprView) -> LogicalExprView
    decreases e,
{
    match e {
        LogicalExprView::BinaryExpr { left, op, right } => if is_connective(op) {
            if needs_projection(*left) {
                extracted(*left)
            } else if needs_projection(*right) {
                extracted(*right)
            } else {
                e
            }
        } else if is_comparison(op) && !is_simple(*left) {
            *left
        } else if is_comparison(op) && !is_simple(*right) {
            *right
        } else {
            e
        },
        _ => e,
    }
}

/// Takes from a predicate the expression that has to be computed.
pub fn extract_expression_from_predicate(e: &LogicalExpr) -> (r: LogicalExpr)
    ensures
        r.view() == extracted(e.view()),
    decreases e,
{
    match e {
        LogicalExpr::BinaryExpr { left, op, right } => {
            if connective(*op) {
                if predicate_needs_projection(left) {
                    return extract_expression_from_predicate(left);
                }
                if predicate_needs_projection(right) {
                    return extract_expression_from_predicate(right);
                }
                return copy_expr(e);
            }
            if comparison(*op) {
                if !simple(left) {
                    return copy_expr(left);
                }
                if !simple(right) {
                    return copy_expr(right);
                }
            }
            copy_expr(e)
        },
        _ => copy_expr(e),
    }
}

pub open spec fn bare_column(name: Seq<char>) -> LogicalExprView {
    LogicalExprView::Column(ColumnRefView { name, table: None })
}

/// A predicate with what has to be computed replaced by a column that holds it. A whole predicate
/// that has to be computed becomes a test that the column is 1.
pub open spec fn replaced(e: LogicalExprView, temp: Seq<char>) -> LogicalExprView
    decreases e,
{
    match e {
        LogicalExprView::BinaryExpr { left, op, right } => if is_connective(op) {
            LogicalExprView::BinaryExpr {
                left: Box::new(replaced(*left, temp)),
                op,
                right: Box::new(replaced(*right, temp)),
            }
        } else if needs_projection(e) && !is_simple(*left) {
            LogicalExprView::BinaryExpr { left: Box::new(bare_column(temp)), op, right }
        } else if needs_projection(e) && !is_simple(*right) {
            LogicalExprView::BinaryExpr { left, op, right: Box::new(bare_column(temp)) }
        } else {
            e
        },
        _ => if needs_projection(e) {
            LogicalExprView::BinaryExpr {
                left: Box::new(bare_column(temp)),
                op: BinaryOperator::Equals,
                right: Box::new(LogicalExprView::Literal(int_datum(1))),
            }
        } else {
            e
        },
    }
}

fn temp_column(name: &str) -> (r: LogicalExpr)
    ensures
        r.view() == bare_column(name@),
{
    LogicalExpr::Column(Column { name: name.to_owned(), table: None })
}

/// Replaces what has to be computed in a predicate by the column that holds it.
pub fn replace_complex_with_temp(e: &LogicalExpr, temp_column_name: &str) -> (r: LogicalExpr)
    ensures
        r.view() == replaced(e.view(), temp_column_name@),
    decreases e,
{
    proof {
        reveal_with_fuel(LogicalExpr::view, 2);
    }
    match e {
        LogicalExpr::BinaryExpr { left, op, right } => {
            if connective(*op) {
                return LogicalExpr::BinaryExpr {
                    left: Box::new(replace_complex_with_temp(left, temp_column_name)),
                    op: *op,
                    right: Box::new(replace_complex_with_temp(right, temp_column_name)),
                };
            }
            if predicate_needs_projection(e) {
                if !simple(left) {
                    return LogicalExpr::BinaryExpr {
                        left: Box::new(temp_column(temp_column_name)),
                        op: *op,
                        right: Box::new(copy_expr(right)),
                    };
                }
                if !simple(right) {
                    return LogicalExpr::BinaryExpr {
                        left: Box::new(copy_expr(left)),
                        op: *op,
                        right: Box::new(temp_column(temp_column_name)),
                    };
                }
            }
            copy_expr(e)
        },
        _ => {
            if predicate_needs_projection(e) {
                return LogicalExpr::BinaryExpr {
                    left: Box::new(temp_column(temp_column_name)),
                    op: BinaryOperator::Equals,
                    right: Box::new(LogicalExpr::Literal(Value::from_i64(1))),
                };
            }
            copy_expr(e)
        },
    }
}

/// A column that a filter's reference names. A database before the table is left aside.
pub open spec fn filter_names(col: ColumnRefView) -> spec_fn(ColumnInfoView) -> bool {
    |c: ColumnInfoView|
        c.name == col.name && (match col.table {
            None => true,
            Some(t) => c.table_alias == Some(after_last_dot(t)) || c.table == Some(
                after_last_dot(t),
            ),
        })
}

/// The position of the column that a filter's reference names, or why there is none.
pub open spec fn filter_position(col: ColumnRefView, schema: Seq<ColumnInfoView>) -> Result<
    int,
    Seq<char>,
> {
    match first_where(schema, filter_names(col)) {
        Some(i) => Ok(i),
        None => Err(
            match col.table {
                Some(t) => "Column '"@ + t + "."@ + col.name + "' not found in schema for filter"@,
                None => "Column '"@ + col.name + "' not found in schema for filter"@,
            },
        ),
    }
}

fn is_text(s: &Option<String>, t: &str) -> (r: bool)
    ensures
        r == (text_view(*s) == Some(t@)),
{
    match s {
        Some(x) => same_text(x.as_str(), t),
        None => false,
    }
}

/// Resolves a column reference of a filter to its position in the schema, with the table
/// qualifier telling apart columns of the same name.
pub fn resolve_column_index(col: &Column, schema: &LogicalSchema) -> (r: Result<usize, LimboError>)
    ensures
        match filter_position(col@, schema@) {
            Ok(i) => r matches Ok(x) && x == i && x < schema.columns@.len(),
            Err(m) => r matches Err(e) && e@ == ErrorView::ParseError(m),
        },
{
    let ghost p = filter_names(col@);
    let mut i: usize = 0;
    while i < schema.columns.len()
        invariant
            i <= schema.columns.len(),
            p == filter_names(col@),
            forall|j: int| 0 <= j < i ==> !p(#[trigger] schema@[j]),
        decreases schema.columns.len() - i,
    {
        let c = &schema.columns[i];
        assert(schema@[i as int] == c@);
        let qualified = match &col.table {
            None => true,
            Some(t) => {
                let name = tail_after_dot(t.as_str());
                is_text(&c.table_alias, name.as_str()) || is_text(&c.table, name.as_str())
            },
        };
        if qualified && c.name == col.name {
            proof {
                lemma_is_first_where(schema@, p, i as int);
            }
            return Ok(i);
        }
        i += 1;
    }
    proof {
        lemma_none_where(schema@, p);
    }
    let mut m = "Column '".to_owned();
    if let Some(t) = &col.table {
        m.append(t.as_str());
        m.append(".");
    }
    m.append(col.name.as_str());
    m.append("' not found in schema for filter");
    Err(LimboError::ParseError(m))
}

/// The conjunction or disjunction of two compiled predicates.
pub open spec fn connected(
    op: BinaryOperator,
    a: Result<FilterView, Seq<char>>,
    b: Result<FilterView, Seq<char>>,
) -> Result<FilterView, Seq<char>> {
    match (a, b) {
        (Err(m), _) => Err(m),
        (_, Err(m)) => Err(m),
        (Ok(x), Ok(y)) => if op == BinaryOperator::And {
            Ok(FilterView::And(Box::new(x), Box::new(y)))
        } else {
            Ok(FilterView::Or(Box::new(x), Box::new(y)))
        },
    }
}

/// The predicate that an expression compiles to, or why it does not.
pub open spec fn filter_of(e: LogicalExprView, schema: Seq<ColumnInfoView>) -> Result<
    FilterView,
    Seq<char>,
>
    decreases e,
{
    match e {
        LogicalExprView::BinaryExpr { left, op, right } => match (*left, *right) {
            (LogicalExprView::Column(a), LogicalExprView::Column(b)) => match (
                filter_position(a, schema),
                filter_position(b, schema),
            ) {
                (Err(m), _) => Err(m),
                (_, Err(m)) => Err(m),
                (Ok(i), Ok(j)) => if is_comparison(op) {
                    Ok(FilterView::Columns { op, left: i, right: j })
                } else if is_connective(op) {
                    connected(op, filter_of(*left, schema), filter_of(*right, schema))
                } else {
                    Err("Unsupported operator in filter: "@ + operator_name(op))
                },
            },
            (LogicalExprView::Column(a), LogicalExprView::Literal(v)) => match filter_position(
                a,
                schema,
            ) {
                Err(m) => Err(m),
                Ok(i) => if is_comparison(op) {
                    Ok(FilterView::Value { op, column: i, value: v })
                } else if is_connective(op) {
                    connected(op, filter_of(*left, schema), filter_of(*right, schema))
                } else {
                    Err("Unsupported operator in filter: "@ + operator_name(op))
                },
            },
            _ => if is_connective(op) {
                connected(op, filter_of(*left, schema), filter_of(*right, schema))
            } else {
                Err("Filter predicate must be column op value or column op column"@)
            },
        },
        LogicalExprView::IsNull { expr, negated } => match *expr {
            LogicalExprView::Column(c) => match filter_position(c, schema) {
                Err(m) => Err(m),
                Ok(i) => if negated {
                    Ok(FilterView::IsNotNull { column: i })
                } else {
                    Ok(FilterView::IsNull { column: i })
                },
            },
            _ => Err("IS NULL/IS NOT NULL expects a column reference"@),
        },
        _ => Err("Unsupported filter expression: "@ + logical_text(e)),
    }
}

fn unsupported_operator(op: BinaryOperator) -> (r: LimboError)
    ensures
        r@ == ErrorView::ParseError("Unsupported operator in filter: "@ + operator_name(op)),
{
    let mut m = "Unsupported operator in filter: ".to_owned();
    m.append(operator_name_str(op));
    LimboError::ParseError(m)
}

/// What a compilation came to.
pub open spec fn outcome(r: Result<FilterPredicate, LimboError>) -> Result<FilterView, ErrorView> {
    match r {
        Ok(f) => Ok(f.view()),
        Err(e) => Err(e@),
    }
}

/// A message as a parse error.
pub open spec fn or_parse_error<T>(r: Result<T, Seq<char>>) -> Result<T, ErrorView> {
    match r {
        Ok(x) => Ok(x),
        Err(m) => Err(ErrorView::ParseError(m)),
    }
}

/// Compiles an expression to a predicate.
pub fn compile_filter_predicate(e: &LogicalExpr, schema: &LogicalSchema) -> (r: Result<
    FilterPredicate,
    LimboError,
>)
    ensures
        outcome(r) == or_parse_error(filter_of(e.view(), schema@)),
    decreases e,
{
    proof {
        reveal_with_fuel(LogicalExpr::view, 2);
    }
    match e {
        LogicalExpr::BinaryExpr { left, op, right } => {
            match (&**left, &**right) {
                (LogicalExpr::Column(a), LogicalExpr::Column(b)) => {
                    let left_idx: usize = match resolve_column_index(a, schema) {
                        Ok(i) => i,
                        Err(err) => return Err(err),
                    };
                    let right_idx: usize = match resolve_column_index(b, schema) {
                        Ok(i) => i,
                        Err(err) => return Err(err),
                    };
                    match op {
                        BinaryOperator::Equals => return Ok(
                            FilterPredicate::ColumnEquals { left_idx, right_idx },
                        ),
                        BinaryOperator::NotEquals => return Ok(
                            FilterPredicate::ColumnNotEquals { left_idx, right_idx },
                        ),
                        BinaryOperator::Greater => return Ok(
                            FilterPredicate::ColumnGreaterThan { left_idx, right_idx },
                        ),
                        BinaryOperator::GreaterEquals => return Ok(
                            FilterPredicate::ColumnGreaterThanOrEqual { left_idx, right_idx },
                        ),
                        BinaryOperator::Less => return Ok(
                            FilterPredicate::ColumnLessThan { left_idx, right_idx },
                        ),
                        BinaryOperator::LessEquals => return Ok(
                            FilterPredicate::ColumnLessThanOrEqual { left_idx, right_idx },
                        ),
                        _ => {
                            if !connective(*op) {
                                return Err(unsupported_operator(*op));
                            }
                        },
                    }
                },
                (LogicalExpr::Column(a), LogicalExpr::Literal(v)) => {
                    let column_idx: usize = match resolve_column_index(a, schema) {
                        Ok(i) => i,
                        Err(err) => return Err(err),
                    };
                    let value = v.clone();
                    match op {
                        BinaryOperator::Equals => return Ok(
                            FilterPredicate::Equals { column_idx, value },
                        ),
                        BinaryOperator::NotEquals => return Ok(
                            FilterPredicate::NotEquals { column_idx, value },
                        ),
                        BinaryOperator::Greater => return Ok(
                            FilterPredicate::GreaterThan { column_idx, value },
                        ),
                        BinaryOperator::GreaterEquals => return Ok(
                            FilterPredicate::GreaterThanOrEqual { column_idx, value },
                        ),
                        BinaryOperator::Less => return Ok(
                            FilterPredicate::LessThan { column_idx, value },
                        ),
                        BinaryOperator::LessEquals => return Ok(
                            FilterPredicate::LessThanOrEqual { column_idx, value },
                        ),
                        _ => {
                            if !connective(*op) {
                                return Err(unsupported_operator(*op));
                            }
                        },
                    }
                },
                _ => {
                    if !connective(*op) {
                        return Err(
                            LimboError::ParseError(
                                "Filter predicate must be column op value or column op column".to_owned(),
                            ),
                        );
                    }
                },
            }
            let a = match compile_filter_predicate(left, schema) {
                Ok(a) => a,
                Err(err) => return Err(err),
            };
            let b = match compile_filter_predicate(right, schema) {
                Ok(b) => b,
                Err(err) => return Err(err),
            };
            if *op == BinaryOperator::And {
                Ok(FilterPredicate::And(Box::new(a), Box::new(b)))
            } else {
                Ok(FilterPredicate::Or(Box::new(a), Box::new(b)))
            }
        },
        LogicalExpr::IsNull { expr, negated } => {
            if let LogicalExpr::Column(c) = &**expr {
                match resolve_column_index(c, schema) {
                    Err(err) => Err(err),
                    Ok(column_idx) => if *negated {
                        Ok(FilterPredicate::IsNotNull { column_idx })
                    } else {
                        Ok(FilterPredicate::IsNull { column_idx })
                    },
                }
            } else {
                Err(
                    LimboError::ParseError(
                        "IS NULL/IS NOT NULL expects a column reference".to_owned(),
                    ),
                )
            }
        },
        _ => {
            let mut m = "Unsupported filter expression: ".to_owned();
            m.append(write_logical(e).as_str());
            Err(LimboError::ParseError(m))
        },
    }
}

/// A predicate that needs no projection, and is more than a bare column or literal, compiles
/// wherever its columns resolve.
pub proof fn law_simple_predicates_compile(e: LogicalExprView, schema: Seq<ColumnInfoView>)
    requires
        !needs_projection(e),
        tests_only(e),
        columns_resolve(e, schema),
    ensures
        filter_of(e, schema) is Ok,
    decreases e,
{
    reveal_with_fuel(columns_resolve, 2);
    reveal_with_fuel(tests_only, 2);
    match e {
        LogicalExprView::BinaryExpr { left, op, right } => {
            if is_connective(op) {
                law_simple_predicates_compile(*left, schema);
                law_simple_predicates_compile(*right, schema);
                assert(filter_of(*left, schema) is Ok);
            }
        },
        _ => {},
    }
}

/// No operand of an AND or OR is a bare column or literal, nor is the predicate itself.
pub open spec fn tests_only(e: LogicalExprView) -> bool
    decreases e,
{
    match e {
        LogicalExprView::BinaryExpr { left, op, right } => is_connective(op) ==> tests_only(*left)
            && tests_only(*right),
        LogicalExprView::IsNull { .. } => true,
        _ => false,
    }
}

/// Every column that the tests of a predicate name is in the schema.
pub open spec fn columns_resolve(e: LogicalExprView, schema: Seq<ColumnInfoView>) -> bool
    decreases e,
{
    match e {
        LogicalExprView::BinaryExpr { left, op, right } => columns_resolve(*left, schema)
            && columns_resolve(*right, schema),
        LogicalExprView::IsNull { expr, .. } => columns_resolve(*expr, schema),
        LogicalExprView::Column(c) => filter_position(c, schema) is Ok,
        _ => true,
    }
}

/// The part of a qualifier that a filter goes by is what stands after its last dot, or all of it where
/// it has none.
proof fn lemma_after_last_dot_is(t: Seq<char>)
    ensures
        ({
            let tail = after_last_dot(t);
            &&& tail.len() <= t.len()
            &&& tail == t.skip(t.len() - tail.len())
            &&& !tail.contains('.')
            &&& tail.len() < t.len() ==> t[t.len() - tail.len() - 1] == '.'
        }),
    decreases t.len(),
{
    let tail = after_last_dot(t);
    if t.len() == 0 {
        assert(t.skip(0) =~= t);
    } else if t.last() == '.' {
        assert(t.skip(t.len() as int) =~= Seq::<char>::empty());
    } else {
        let front = t.drop_last();
        lemma_after_last_dot_is(front);
        let less = after_last_dot(front);
        assert(tail == less.push(t.last()));
        assert(t.skip(t.len() - tail.len()) =~= tail);
        if tail.contains('.') {
            let k = choose|k: int| 0 <= k < tail.len() && tail[k] == '.';
            if k < less.len() {
                assert(less[k] == '.');
            }
        }
        if tail.len() < t.len() {
            assert(front[front.len() - less.len() - 1] == t[t.len() - tail.len() - 1]);
        }
    }
}

/// A reference in a filter names the first column that has its name and, where it is qualified, whose
/// table or alias is what stands behind the last dot of the qualifier.
pub proof fn law_a_filter_names_the_first_column_that_fits(
    col: ColumnRefView,
    schema: Seq<ColumnInfoView>,
    qualifier: Seq<char>,
    i: int,
)
    requires
        col.table matches Some(t) ==> {
            &&& qualifier.len() <= t.len()
            &&& qualifier == t.skip(t.len() - qualifier.len())
            &&& !qualifier.contains('.')
            &&& qualifier.len() < t.len() ==> t[t.len() - qualifier.len() - 1] == '.'
        },
    ensures
        ({
            let fits = |c: ColumnInfoView|
                c.name == col.name && (col.table is Some ==> c.table_alias == Some(qualifier)
                    || c.table == Some(qualifier));
            filter_position(col, schema) == Ok::<int, Seq<char>>(i) <==> {
                &&& 0 <= i < schema.len()
                &&& fits(schema[i])
                &&& forall|j: int| 0 <= j < i ==> !fits(#[trigger] schema[j])
            }
        }),
{
    let p = filter_names(col);
    let fits = |c: ColumnInfoView|
        c.name == col.name && (col.table is Some ==> c.table_alias == Some(qualifier) || c.table
            == Some(qualifier));
    if let Some(t) = col.table {
        lemma_after_last_dot_is(t);
        let tail = after_last_dot(t);
        if tail.len() < qualifier.len() {
            let k = qualifier.len() - tail.len() - 1;
            assert(qualifier[k] == t[t.len() - tail.len() - 1]);
            assert(qualifier.contains('.'));
        } else if qualifier.len() < tail.len() {
            let k = tail.len() - qualifier.len() - 1;
            assert(tail[k] == t[t.len() - qualifier.len() - 1]);
            assert(tail.contains('.'));
        }
        assert(tail == qualifier);
    }
    assert forall|c: ColumnInfoView| #[trigger] p(c) == fits(c) by {}
    lemma_first_where(schema, p);
    if 0 <= i < schema.len() && fits(schema[i]) && forall|j: int|
        0 <= j < i ==> !fits(#[trigger] schema[j]) {
        lemma_is_first_where(schema, p, i);
    }
}

} // verus!
