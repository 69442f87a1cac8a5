//! Expressions of plans: their literals, their syntax trees, the predicates that filters test,
//! and the reduction of EXISTS.

use incremental::ast::{BinaryOperator, Expr, Literal, UnaryOperator};
use incremental::decorrelate::{
    analyze, conjoin, first_exists, fold_indicator_negations, indicator_name,
    reject_reserved_names, schema_with_indicator, split_conjuncts, substitute,
};
use incremental::error::LimboError;
use incremental::expr::{
    classify_filter_side, compile_expression, literal, logical_to_ast_expr_with_schema, FilterSide,
};
use incremental::filter::{
    compile_filter_predicate, extract_expression_from_predicate,
    predicate_needs_projection, replace_complex_with_temp, resolve_column_index, FilterPredicate,
};
use incremental::logical::{AggFunc, Column, ColumnInfo, LogicalExpr, LogicalPlan, LogicalSchema, Type};
use incremental::aggregate::compile_aggregate_call;
use incremental::circuit::AggregateFunction;
use incremental::show::write_logical;
use incremental::value::{Numeric, Real, Value};

fn info(table: &str, name: &str) -> ColumnInfo {
    ColumnInfo {
        name: name.to_string(),
        ty: Type::Integer,
        database: None,
        table: Some(table.to_string()),
        table_alias: None,
    }
}

fn schema(table: &str, names: &[&str]) -> LogicalSchema {
    LogicalSchema::new(names.iter().map(|n| info(table, n)).collect())
}

fn bare(name: &str) -> Column {
    Column { name: name.to_string(), table: None }
}

fn column(name: &str) -> LogicalExpr {
    LogicalExpr::Column(bare(name))
}

fn qualified(table: &str, name: &str) -> LogicalExpr {
    LogicalExpr::Column(Column { name: name.to_string(), table: Some(table.to_string()) })
}

fn number(i: i64) -> LogicalExpr {
    LogicalExpr::Literal(Value::from_i64(i))
}

fn float(x: f64) -> Value {
    Value::Numeric(Numeric::Float(Real { bits: x.to_bits(), text: x.to_string() }))
}

fn binary(left: LogicalExpr, op: BinaryOperator, right: LogicalExpr) -> LogicalExpr {
    LogicalExpr::BinaryExpr { left: Box::new(left), op, right: Box::new(right) }
}

fn equals(left: LogicalExpr, right: LogicalExpr) -> LogicalExpr {
    binary(left, BinaryOperator::Equals, right)
}

fn and(left: LogicalExpr, right: LogicalExpr) -> LogicalExpr {
    binary(left, BinaryOperator::And, right)
}

fn parse_error<T: std::fmt::Debug>(r: Result<T, LimboError>) -> String {
    match r {
        Err(LimboError::ParseError(m)) => m,
        other => panic!("{other:?}"),
    }
}

#[test]
fn numbers_are_written_in_decimal() {
    assert_eq!(literal(&Value::from_i64(0)), Literal::Numeric("0".to_string()));
    assert_eq!(
        literal(&Value::from_i64(i64::MIN)),
        Literal::Numeric("-9223372036854775808".to_string())
    );
}

/// A real that is a whole number must not be read again as an integer.
#[test]
fn whole_reals_stay_real() {
    assert_eq!(literal(&float(3.0)), Literal::Numeric("3.0".to_string()));
    assert_eq!(literal(&float(-2.0)), Literal::Numeric("-2.0".to_string()));
    assert_eq!(literal(&float(0.001)), Literal::Numeric("0.001".to_string()));
}

#[test]
fn quotes_are_doubled_in_text() {
    assert_eq!(
        literal(&Value::Text("it's".to_string())),
        Literal::String("'it''s'".to_string())
    );
}

#[test]
fn blobs_are_written_in_hexadecimal() {
    assert_eq!(
        literal(&Value::Blob(vec![0, 10, 255])),
        Literal::Blob("X'000aff'".to_string())
    );
    assert_eq!(literal(&Value::Null), Literal::Null);
}

#[test]
fn columns_become_positions() {
    let s = schema("t", &["a", "b"]);
    let (compiled, alias) = compile_expression(
        &LogicalExpr::Alias {
            expr: Box::new(binary(column("b"), BinaryOperator::Add, number(1))),
            alias: "c".to_string(),
        },
        &s,
    )
    .unwrap();
    assert_eq!(alias, Some("c".to_string()));
    assert_eq!(compiled.input_count, 2);
    assert_eq!(
        compiled.tree,
        Expr::Binary(
            Box::new(Expr::Register(1)),
            BinaryOperator::Add,
            Box::new(Expr::Literal(Literal::Numeric("1".to_string())))
        )
    );
}

#[test]
fn is_not_null_is_a_negation() {
    let s = schema("t", &["a"]);
    let tree = logical_to_ast_expr_with_schema(
        &LogicalExpr::IsNull { expr: Box::new(column("a")), negated: true },
        &s,
    );
    assert_eq!(
        tree,
        Ok(Expr::Unary(
            UnaryOperator::Not,
            Box::new(Expr::IsNull(Box::new(Expr::Register(0))))
        ))
    );
}

/// BETWEEN is spelled out as two comparisons.
#[test]
fn between_is_two_comparisons() {
    let s = schema("t", &["a"]);
    let tree = logical_to_ast_expr_with_schema(
        &LogicalExpr::Between {
            expr: Box::new(column("a")),
            low: Box::new(number(1)),
            high: Box::new(number(9)),
            negated: false,
        },
        &s,
    )
    .unwrap();
    match tree {
        Expr::Binary(low, BinaryOperator::And, high) => {
            assert!(matches!(*low, Expr::Binary(_, BinaryOperator::GreaterEquals, _)));
            assert!(matches!(*high, Expr::Binary(_, BinaryOperator::LessEquals, _)));
        }
        other => panic!("{other:?}"),
    }
}

#[test]
fn an_expression_over_a_missing_column_is_refused() {
    let s = schema("t", &["a"]);
    let message = parse_error(compile_expression(&column("x"), &s));
    assert!(message.contains("Column 'x'") && message.contains("not found in schema"), "{message}");
}

#[test]
fn a_filter_compares_a_column_with_a_value_or_a_column() {
    let s = schema("t", &["a", "b"]);
    assert_eq!(
        compile_filter_predicate(&equals(column("b"), number(7)), &s),
        Ok(FilterPredicate::Equals { column_idx: 1, value: Value::from_i64(7) })
    );
    assert_eq!(
        compile_filter_predicate(&binary(column("a"), BinaryOperator::Less, column("b")), &s),
        Ok(FilterPredicate::ColumnLessThan { left_idx: 0, right_idx: 1 })
    );
    assert_eq!(
        compile_filter_predicate(
            &LogicalExpr::IsNull { expr: Box::new(column("a")), negated: true },
            &s
        ),
        Ok(FilterPredicate::IsNotNull { column_idx: 0 })
    );
    assert_eq!(
        parse_error(compile_filter_predicate(&equals(number(7), column("b")), &s)),
        "Filter predicate must be column op value or column op column"
    );
    assert_eq!(
        parse_error(compile_filter_predicate(
            &binary(column("a"), BinaryOperator::Add, number(1)),
            &s
        )),
        "Unsupported operator in filter: Add"
    );
    assert_eq!(
        parse_error(compile_filter_predicate(
            &LogicalExpr::IsNull { expr: Box::new(number(1)), negated: false },
            &s
        )),
        "IS NULL/IS NOT NULL expects a column reference"
    );
}

#[test]
fn a_filter_over_a_missing_column_is_refused() {
    let s = schema("t", &["a"]);
    assert_eq!(
        parse_error(resolve_column_index(
            &Column { name: "a".to_string(), table: Some("u".to_string()) },
            &s
        )),
        "Column 'u.a' not found in schema for filter"
    );
    assert_eq!(
        parse_error(resolve_column_index(&bare("x"), &s)),
        "Column 'x' not found in schema for filter"
    );
    assert_eq!(
        resolve_column_index(
            &Column { name: "a".to_string(), table: Some("main.t".to_string()) },
            &s
        ),
        Ok(0)
    );
}

#[test]
fn computed_operands_are_replaced_by_a_column() {
    let doubled = binary(column("a"), BinaryOperator::Multiply, number(2));
    let predicate = binary(
        binary(column("a"), BinaryOperator::Multiply, number(2)),
        BinaryOperator::Greater,
        number(4),
    );
    assert!(predicate_needs_projection(&predicate));
    assert!(!predicate_needs_projection(&equals(column("a"), number(1))));
    assert_eq!(extract_expression_from_predicate(&predicate), doubled);
    assert_eq!(
        replace_complex_with_temp(&predicate, "t"),
        binary(column("t"), BinaryOperator::Greater, number(4))
    );
}

/// An expression is written as it is built.
#[test]
fn expressions_are_written_out() {
    let boxed = |e: LogicalExpr| Box::new(e);
    for e in [
        qualified("t", "a"),
        number(-1),
        LogicalExpr::Literal(Value::Text("it's \"x\"".to_string())),
        and(column("a"), equals(column("b"), number(2))),
        LogicalExpr::UnaryExpr { op: UnaryOperator::Not, expr: boxed(column("a")) },
        LogicalExpr::IsNull { expr: boxed(column("a")), negated: true },
        LogicalExpr::Between {
            expr: boxed(column("a")),
            low: boxed(number(1)),
            high: boxed(number(2)),
            negated: false,
        },
        LogicalExpr::InList {
            expr: boxed(column("a")),
            list: vec![number(1), number(2)],
            negated: false,
        },
        LogicalExpr::Alias { expr: boxed(column("a")), alias: "b".to_string() },
        LogicalExpr::AggregateFunction {
            fun: AggFunc::Sum,
            args: vec![column("a")],
            distinct: true,
            filter: Some(boxed(column("b"))),
        },
    ] {
        assert_eq!(write_logical(&e), format!("{e:?}"));
    }
    let like = LogicalExpr::Like {
        expr: boxed(column("a")),
        pattern: boxed(column("b")),
        escape: Some("'".to_string()),
        negated: false,
    };
    assert!(write_logical(&like).ends_with("escape: Some('\\''), negated: false }"));
    let cast = LogicalExpr::Cast { expr: boxed(number(1)), cast_type: None };
    assert_eq!(
        write_logical(&cast),
        "Cast { expr: Literal(Numeric(Integer(1))), type_name: None }"
    );
    let case = LogicalExpr::Case {
        base: None,
        when_then: vec![(column("a"), number(1))],
        else_expr: Some(boxed(number(2))),
    };
    assert_eq!(
        write_logical(&case),
        "Case { expr: None, when_then: [(Column(Column { name: \"a\", table: None }), \
         Literal(Numeric(Integer(1))))], else_expr: Some(Literal(Numeric(Integer(2)))) }"
    );
    let exists = LogicalExpr::Exists {
        subquery: Box::new(LogicalPlan::Filter {
            input: Box::new(LogicalPlan::TableScan {
                table_name: "r".to_string(),
                schema: LogicalSchema::new(vec![]),
            }),
            predicate: column("a"),
        }),
        negated: false,
    };
    assert_eq!(
        write_logical(&exists),
        "Exists { subquery: Filter(Filter { input: TableScan(TableScan { table_name: \"r\", \
         schema: LogicalSchema { columns: [] } }), predicate: Column(Column { name: \"a\", \
         table: None }) }), negated: false }"
    );
}

/// What cannot be filtered by or converted is shown whole.
#[test]
fn refused_expressions_are_shown() {
    let s = schema("t", &["a"]);
    let not = LogicalExpr::UnaryExpr { op: UnaryOperator::Not, expr: Box::new(column("a")) };
    let shown = "UnaryExpr { op: Not, expr: Column(Column { name: \"a\", table: None }) }";
    assert_eq!(
        parse_error(compile_filter_predicate(&not, &s)),
        format!("Unsupported filter expression: {shown}")
    );
    assert_eq!(
        parse_error(logical_to_ast_expr_with_schema(&not, &s)),
        format!("Cannot convert LogicalExpr to AST Expr: {shown}")
    );
}

#[test]
fn a_condition_belongs_to_the_side_it_reads() {
    let l = schema("l", &["a"]);
    let r = schema("r", &["b"]);
    assert_eq!(
        classify_filter_side(&equals(column("a"), number(1)), &l, &r),
        FilterSide::LeftOnly
    );
    assert_eq!(
        classify_filter_side(&equals(column("b"), number(1)), &l, &r),
        FilterSide::RightOnly
    );
    assert_eq!(
        classify_filter_side(&equals(column("a"), column("b")), &l, &r),
        FilterSide::Cross
    );
}

fn call(fun: AggFunc, args: Vec<LogicalExpr>, filter: Option<LogicalExpr>) -> LogicalExpr {
    LogicalExpr::AggregateFunction { fun, args, distinct: false, filter: filter.map(Box::new) }
}

#[test]
fn aggregates_read_columns() {
    let s = schema("t", &["a", "b"]);
    let (f, filter) = compile_aggregate_call(
        &call(AggFunc::Max, vec![column("b")], None),
        &s,
    )
    .unwrap();
    assert_eq!(f, AggregateFunction::Max(1));
    assert_eq!(filter, None);
    let (f, _) = compile_aggregate_call(
        &call(
            AggFunc::GroupConcat,
            vec![column("a"), LogicalExpr::Literal(Value::Text("; ".to_string()))],
            None,
        ),
        &s,
    )
    .unwrap();
    assert_eq!(f, AggregateFunction::GroupConcat { col: 0, separator: "; ".to_string() });
    let (_, filter) = compile_aggregate_call(
        &call(AggFunc::Sum, vec![column("b")], Some(equals(column("a"), number(1)))),
        &s,
    )
    .unwrap();
    assert_eq!(
        filter,
        Some(FilterPredicate::Equals { column_idx: 0, value: Value::from_i64(1) })
    );
}

#[test]
fn aggregates_that_cannot_be_maintained_are_refused() {
    let s = schema("t", &["a"]);
    let refused = |e: LogicalExpr| parse_error(compile_aggregate_call(&e, &s));
    assert_eq!(
        refused(call(AggFunc::ArrayAgg, vec![column("a")], None)),
        "array_agg is not supported in incremental views; use json_group_array instead"
    );
    assert_eq!(
        refused(number(1)),
        "Expected aggregate function in aggregate expressions"
    );
    assert_eq!(
        refused(call(AggFunc::GroupConcat, vec![column("a"), column("a")], None)),
        "group_concat separator must be a string literal in incremental views"
    );
    assert!(refused(call(AggFunc::Sum, vec![], None)).ends_with(" requires an argument"));
    assert!(refused(call(AggFunc::Sum, vec![column("x")], None))
        .ends_with(" column 'x' not found in input"));
    assert!(refused(call(AggFunc::Sum, vec![column("a")], Some(number(1))))
        .starts_with("FILTER expression on aggregate is unsupported: Parse error: "));
    assert!(refused(call(AggFunc::Min, vec![column("a")], Some(equals(column("a"), number(1)))))
        .ends_with(" in incremental views (v1 limitation)"));
}

// EXISTS.

fn inner_scan() -> LogicalPlan {
    LogicalPlan::TableScan { table_name: "r".to_string(), schema: schema("r", &["fk", "x"]) }
}

fn outer_schema() -> LogicalSchema {
    schema("l", &["id", "y"])
}

fn subquery(predicate: LogicalExpr) -> LogicalPlan {
    LogicalPlan::Projection {
        input: Box::new(LogicalPlan::Filter { input: Box::new(inner_scan()), predicate }),
        exprs: vec![number(1)],
        schema: schema("r", &["one"]),
    }
}

fn correlation() -> LogicalExpr {
    equals(qualified("r", "fk"), qualified("l", "id"))
}

fn an_exists(negated: bool) -> LogicalExpr {
    LogicalExpr::Exists { subquery: Box::new(subquery(correlation())), negated }
}

/// The correlation becomes a pair of keys; what is left is a plan of its own.
#[test]
fn a_correlated_exists_is_reduced_to_its_key() {
    let local = equals(column("x"), number(3));
    let c = analyze(&subquery(and(correlation(), local)), &outer_schema()).unwrap();
    assert_eq!(c.outer_key.name, "id");
    assert_eq!(c.inner_key.name, "fk");
    assert_eq!(
        c.source,
        LogicalPlan::Filter {
            input: Box::new(inner_scan()),
            predicate: equals(column("x"), number(3))
        }
    );
    let c = analyze(&subquery(correlation()), &outer_schema()).unwrap();
    assert_eq!(c.source, inner_scan());
}

#[test]
fn an_exists_that_cannot_be_maintained_is_refused() {
    let refused = |p: LogicalPlan| {
        let m = parse_error(analyze(&p, &outer_schema()));
        let prefix = "EXISTS subquery in a materialized view is not supported: ";
        m.strip_prefix(prefix).unwrap().to_string()
    };
    assert_eq!(
        refused(inner_scan()),
        "it has no WHERE clause correlating it to the outer query"
    );
    assert_eq!(
        refused(subquery(equals(column("x"), number(3)))),
        "it is not correlated to the outer query; an uncorrelated EXISTS has no key to maintain \
         matches under"
    );
    assert_eq!(
        refused(subquery(binary(column("fk"), BinaryOperator::Less, column("id")))),
        "its correlation to the outer query is not an equality; only equality correlation can be \
         maintained incrementally"
    );
    assert_eq!(
        refused(subquery(and(correlation(), equals(column("x"), column("y"))))),
        "it correlates to the outer query on more than one equality"
    );
    assert_eq!(
        refused(subquery(and(correlation(), equals(column("y"), number(3))))),
        "it refers to the outer query outside its correlation (y); only a single equality may \
         reach the outer query"
    );
}

/// Replacing the first EXISTS again and again ends with none.
#[test]
fn every_exists_is_replaced() {
    let predicate = and(an_exists(false), binary(an_exists(true), BinaryOperator::Or, number(0)));
    let first = first_exists(&predicate).unwrap();
    let once = substitute(&predicate, 0, first);
    let second = first_exists(&once);
    let twice = match second {
        Some(e) => substitute(&once, 1, e),
        None => panic!("the second EXISTS is another one"),
    };
    assert_eq!(first_exists(&twice), None);
    assert!(format!("{once:?}").contains("__exists_0"));
    assert!(format!("{twice:?}").contains("__exists_1"));
}

#[test]
fn negated_indicators_are_folded() {
    let tested = equals(column("__exists_0"), number(1));
    let negated = LogicalExpr::UnaryExpr { op: UnaryOperator::Not, expr: Box::new(tested) };
    assert_eq!(
        fold_indicator_negations(&negated),
        equals(column("__exists_0"), number(0))
    );
    let other = LogicalExpr::UnaryExpr {
        op: UnaryOperator::Not,
        expr: Box::new(equals(column("x"), number(1))),
    };
    assert_eq!(
        fold_indicator_negations(&other),
        LogicalExpr::UnaryExpr {
            op: UnaryOperator::Not,
            expr: Box::new(equals(column("x"), number(1)))
        }
    );
}

/// Folding reaches under every operator, and what it has folded stays as it is.
#[test]
fn folding_twice_is_folding_once() {
    let not = |e: LogicalExpr| LogicalExpr::UnaryExpr { op: UnaryOperator::Not, expr: Box::new(e) };
    let both = |left: LogicalExpr, right: LogicalExpr| LogicalExpr::BinaryExpr {
        left: Box::new(left),
        op: BinaryOperator::And,
        right: Box::new(right),
    };
    let tested = |bit: i64| equals(column("__exists_0"), number(bit));
    let e = not(both(not(tested(1)), not(not(tested(1)))));
    let folded = fold_indicator_negations(&e);
    assert_eq!(folded, not(both(tested(0), not(tested(0)))));
    assert_eq!(fold_indicator_negations(&folded), folded);
}

#[test]
fn conjunctions_split_into_what_they_were_joined_from() {
    let parts = || vec![column("a"), column("b"), column("c")];
    let joined = conjoin(parts()).unwrap();
    assert_eq!(split_conjuncts(&joined), parts());
    assert_eq!(conjoin(vec![]), None);
}

#[test]
fn indicator_names_are_reserved() {
    assert_eq!(indicator_name(12), "__exists_12");
    let with = schema_with_indicator(&outer_schema(), 0);
    assert_eq!(with.columns.len(), 3);
    assert_eq!(with.columns[2].name, "__exists_0");
    assert_eq!(with.columns[2].table, None);
    assert_eq!(reject_reserved_names(&outer_schema()), Ok(()));
    assert!(parse_error(reject_reserved_names(&with)).starts_with("column '__exists_0' uses"));
}
