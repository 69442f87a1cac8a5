//! Compiling plans to circuits.

use incremental::ast::BinaryOperator;
use incremental::circuit::{
    AggregateFunction, DbspCircuit, DbspNode, DbspOperator, Executable, JoinType, UnionMode,
};
use incremental::compiler::{DbspCompiler, DEFAULT_RECURSIVE_MAX_ITERATIONS};
use incremental::display::write_value;
use incremental::error::LimboError;
use incremental::expr::DbspExpr;
use incremental::filter::FilterPredicate;
use incremental::logical::{
    AggFunc, Column, ColumnInfo, LogicalExpr, LogicalJoinType, LogicalPlan, LogicalSchema, Type,
};
use incremental::order::MatviewOrderBy;
use incremental::text::quote;
use incremental::value::{Numeric, Value};

fn users_schema() -> LogicalSchema {
    LogicalSchema::new(vec![
        make_column_info("id", Type::Integer, "users"),
        make_column_info("name", Type::Text, "users"),
        make_column_info("age", Type::Integer, "users"),
    ])
}

fn users() -> LogicalPlan {
    LogicalPlan::TableScan { table_name: "users".to_string(), schema: users_schema() }
}

fn orders_schema() -> LogicalSchema {
    LogicalSchema::new(vec![
        make_column_info("order_id", Type::Integer, "orders"),
        make_column_info("user_id", Type::Integer, "orders"),
    ])
}

fn orders() -> LogicalPlan {
    LogicalPlan::TableScan { table_name: "orders".to_string(), schema: orders_schema() }
}

fn column(name: &str) -> LogicalExpr {
    LogicalExpr::Column(Column { name: name.to_string(), table: None })
}

fn number(i: i64) -> LogicalExpr {
    LogicalExpr::Literal(Value::from_i64(i))
}

fn binary(left: LogicalExpr, op: BinaryOperator, right: LogicalExpr) -> LogicalExpr {
    LogicalExpr::BinaryExpr { left: Box::new(left), op, right: Box::new(right) }
}

fn of_age() -> LogicalExpr {
    binary(column("age"), BinaryOperator::Greater, number(18))
}

fn filtered(input: LogicalPlan, predicate: LogicalExpr) -> LogicalPlan {
    LogicalPlan::Filter { input: Box::new(input), predicate }
}

/// A projection to some of the columns of `users`.
fn projected(input: LogicalPlan, names: &[&str]) -> LogicalPlan {
    let all = users_schema();
    let columns = names
        .iter()
        .map(|n| all.columns.iter().find(|c| c.name == *n).unwrap().clone())
        .collect();
    LogicalPlan::Projection {
        input: Box::new(input),
        exprs: names.iter().map(|n| column(n)).collect(),
        schema: LogicalSchema::new(columns),
    }
}

fn try_compile(plan: &LogicalPlan) -> Result<DbspCircuit, LimboError> {
    DbspCompiler::new(2, 3, 4, MatviewOrderBy { columns: vec![] }, None).compile(plan)
}

fn compile(plan: &LogicalPlan) -> DbspCircuit {
    try_compile(plan).unwrap()
}

fn refusal(plan: &LogicalPlan) -> String {
    try_compile(plan).unwrap_err().message()
}

fn get_node_at_level(circuit: &DbspCircuit, level: usize) -> &DbspNode {
    let mut current_id = circuit.root.expect("Circuit has no root");
    for _ in 0..level {
        let node = circuit.node(current_id).expect("Node not found");
        if node.inputs.is_empty() {
            panic!("No more levels available, requested level {level}");
        }
        current_id = node.inputs[0];
    }
    circuit.node(current_id).expect("Node not found")
}

fn assert_projection_root(circuit: &DbspCircuit, depth: usize) {
    assert_eq!(circuit.nodes.len(), depth);
    let node = get_node_at_level(circuit, 0);
    assert!(matches!(node.operator, DbspOperator::Projection { .. }));
}

fn assert_input(circuit: &DbspCircuit, level: usize, expected: &str) {
    match &get_node_at_level(circuit, level).operator {
        DbspOperator::Input { name, .. } => assert_eq!(name, expected),
        _ => panic!("Expected Input operator at level {level}"),
    }
}

fn assert_filter(circuit: &DbspCircuit, level: usize) {
    let node = get_node_at_level(circuit, level);
    assert!(matches!(node.operator, DbspOperator::Filter { .. }));
}

fn assert_projection(circuit: &DbspCircuit, level: usize, expected_cols: Vec<&str>) {
    match &get_node_at_level(circuit, level).operator {
        DbspOperator::Projection { exprs, .. } => {
            let actual_cols: Vec<String> = exprs
                .iter()
                .map(|e| match e {
                    DbspExpr::Column(name) => name.clone(),
                    _ => "expr".to_string(),
                })
                .collect();
            assert_eq!(actual_cols, expected_cols);
        }
        _ => panic!("Expected Projection operator at level {level}"),
    }
}

fn assert_greater_predicate(circuit: &DbspCircuit, level: usize, col: &str, val: i64) {
    match &get_node_at_level(circuit, level).operator {
        DbspOperator::Filter { predicate } => match predicate {
            DbspExpr::BinaryExpr { left, op, right } => {
                assert!(matches!(op, BinaryOperator::Greater));
                assert!(matches!(&**left, DbspExpr::Column(name) if name == col));
                assert!(matches!(
                    &**right,
                    DbspExpr::Literal(Value::Numeric(Numeric::Integer(v))) if *v == val
                ));
            }
            _ => panic!("Expected binary expression in filter"),
        },
        _ => panic!("Expected Filter operator at level {level}"),
    }
}

/// SELECT name FROM users
#[test]
fn test_simple_projection() {
    let circuit = compile(&projected(users(), &["name"]));

    assert_projection_root(&circuit, 2);

    assert_projection(&circuit, 0, vec!["name"]);
    assert_input(&circuit, 1, "users");
}

/// SELECT name FROM users WHERE age > 18
#[test]
fn test_filter_with_projection() {
    let circuit = compile(&projected(filtered(users(), of_age()), &["name"]));

    assert_projection_root(&circuit, 3);

    assert_projection(&circuit, 0, vec!["name"]);
    assert_filter(&circuit, 1);
    assert_greater_predicate(&circuit, 1, "age", 18);
    assert_input(&circuit, 2, "users");
}

/// WITH active_users AS (SELECT * FROM users WHERE age > 18) SELECT name FROM active_users
#[test]
fn test_simple_cte() {
    let active = projected(filtered(users(), of_age()), &["id", "name", "age"]);
    let reference =
        LogicalPlan::CTERef { name: "active_users".to_string(), schema: users_schema() };
    let circuit = compile(&LogicalPlan::WithCTE {
        ctes: vec![("active_users".to_string(), active)],
        body: Box::new(projected(reference, &["name"])),
    });

    // Projection (name) -> Projection (*) -> Filter -> Input
    assert_projection_root(&circuit, 4);
    assert_projection(&circuit, 0, vec!["name"]);
    assert_projection(&circuit, 1, vec!["id", "name", "age"]);
    assert_filter(&circuit, 2);
    assert_input(&circuit, 3, "users");
}

fn make_column_info(name: &str, ty: Type, table: &str) -> ColumnInfo {
    ColumnInfo {
        name: name.to_string(),
        ty,
        database: None,
        table: Some(table.to_string()),
        table_alias: None,
    }
}

#[test]
fn test_resolve_join_columns_normal_order() {
    // Normal case: left.id = right.id
    let left_schema = LogicalSchema::new(vec![
        ColumnInfo {
            name: "id".to_string(),
            ty: Type::Integer,
            database: None,
            table: Some("left".to_string()),
            table_alias: None,
        },
        ColumnInfo {
            name: "name".to_string(),
            ty: Type::Text,
            database: None,
            table: Some("left".to_string()),
            table_alias: None,
        },
    ]);
    let right_schema = LogicalSchema::new(vec![
        ColumnInfo {
            name: "id".to_string(),
            ty: Type::Integer,
            database: None,
            table: Some("right".to_string()),
            table_alias: None,
        },
        ColumnInfo {
            name: "value".to_string(),
            ty: Type::Integer,
            database: None,
            table: Some("right".to_string()),
            table_alias: None,
        },
    ]);

    let left_col = Column {
        name: "id".to_string(),
        table: Some("left".to_string()),
    };
    let right_col = Column {
        name: "id".to_string(),
        table: Some("right".to_string()),
    };

    let result =
        DbspCompiler::resolve_join_columns(&left_col, &right_col, &left_schema, &right_schema);
    assert!(result.is_ok());
    let (actual_left, left_idx, actual_right, right_idx) = result.unwrap();
    assert_eq!(actual_left.name, "id");
    assert_eq!(actual_left.table, Some("left".to_string()));
    assert_eq!(left_idx, 0);
    assert_eq!(actual_right.name, "id");
    assert_eq!(actual_right.table, Some("right".to_string()));
    assert_eq!(right_idx, 0);
}

#[test]
fn test_resolve_join_columns_swapped_order() {
    // Swapped case: right.id = left.id
    let left_schema = LogicalSchema::new(vec![
        make_column_info("id", Type::Integer, "left"),
        make_column_info("name", Type::Text, "left"),
    ]);
    let right_schema = LogicalSchema::new(vec![
        make_column_info("id", Type::Integer, "right"),
        make_column_info("value", Type::Integer, "right"),
    ]);

    let right_col = Column {
        name: "id".to_string(),
        table: Some("right".to_string()),
    };
    let left_col = Column {
        name: "id".to_string(),
        table: Some("left".to_string()),
    };

    let result =
        DbspCompiler::resolve_join_columns(&right_col, &left_col, &left_schema, &right_schema);
    assert!(result.is_ok());
    let (actual_left, left_idx, actual_right, right_idx) = result.unwrap();
    assert_eq!(actual_left.name, "id");
    assert_eq!(actual_left.table, Some("left".to_string()));
    assert_eq!(left_idx, 0);
    assert_eq!(actual_right.name, "id");
    assert_eq!(actual_right.table, Some("right".to_string()));
    assert_eq!(right_idx, 0);
}

#[test]
fn test_resolve_join_columns_one_ambiguous_one_not() {
    // Both tables have 'id', but only left has 'other_id'
    let left_schema = LogicalSchema::new(vec![
        make_column_info("id", Type::Integer, "left"),
        make_column_info("other_id", Type::Integer, "left"),
    ]);
    let right_schema = LogicalSchema::new(vec![
        make_column_info("id", Type::Integer, "right"),
        make_column_info("value", Type::Integer, "right"),
    ]);

    // Unqualified 'id' with qualified 'left.other_id'
    let id_col = Column {
        name: "id".to_string(),
        table: None,
    };
    let other_id_col = Column {
        name: "other_id".to_string(),
        table: Some("left".to_string()),
    };

    // id from right, other_id from left
    let result =
        DbspCompiler::resolve_join_columns(&id_col, &other_id_col, &left_schema, &right_schema);
    assert!(result.is_ok());
    let (actual_left, left_idx, actual_right, right_idx) = result.unwrap();
    assert_eq!(actual_left.name, "other_id");
    assert_eq!(left_idx, 1);
    assert_eq!(actual_right.name, "id");
    assert_eq!(right_idx, 0);
}

#[test]
fn test_resolve_join_columns_mixed_qualified() {
    // One qualified, one unqualified, column exists on both sides
    let left_schema = LogicalSchema::new(vec![
        make_column_info("id", Type::Integer, "left"),
        make_column_info("name", Type::Text, "left"),
    ]);
    let right_schema = LogicalSchema::new(vec![
        make_column_info("id", Type::Integer, "right"),
        make_column_info("name", Type::Text, "right"),
    ]);

    // Qualified left.id with unqualified name
    let left_id = Column {
        name: "id".to_string(),
        table: Some("left".to_string()),
    };
    let name_unqualified = Column {
        name: "name".to_string(),
        table: None,
    };

    let result = DbspCompiler::resolve_join_columns(
        &left_id,
        &name_unqualified,
        &left_schema,
        &right_schema,
    );
    // left.id is explicitly from left, so unqualified 'name' must be resolved from right
    assert!(result.is_ok());
    let (actual_left, left_idx, actual_right, right_idx) = result.unwrap();
    assert_eq!(actual_left.name, "id");
    assert_eq!(left_idx, 0);
    assert_eq!(actual_right.name, "name");
    assert_eq!(right_idx, 1);
}

#[test]
fn test_resolve_join_columns_both_from_same_side() {
    // Both columns from left table - should fail
    let left_schema = LogicalSchema::new(vec![
        make_column_info("id", Type::Integer, "left"),
        make_column_info("other_id", Type::Integer, "left"),
    ]);
    let right_schema =
        LogicalSchema::new(vec![make_column_info("value", Type::Integer, "right")]);

    let left_id = Column {
        name: "id".to_string(),
        table: Some("left".to_string()),
    };
    let left_other_id = Column {
        name: "other_id".to_string(),
        table: Some("left".to_string()),
    };

    let result = DbspCompiler::resolve_join_columns(
        &left_id,
        &left_other_id,
        &left_schema,
        &right_schema,
    );
    assert!(result.is_err());
    assert!(result
        .unwrap_err()
        .message()
        .contains("must come from different input tables"));
}

#[test]
fn test_resolve_join_columns_nonexistent_column() {
    // Column doesn't exist in either table
    let left_schema = LogicalSchema::new(vec![make_column_info("id", Type::Integer, "left")]);
    let right_schema =
        LogicalSchema::new(vec![make_column_info("value", Type::Integer, "right")]);

    let id_col = Column {
        name: "id".to_string(),
        table: None,
    };
    let nonexistent_col = Column {
        name: "does_not_exist".to_string(),
        table: None,
    };

    let result = DbspCompiler::resolve_join_columns(
        &id_col,
        &nonexistent_col,
        &left_schema,
        &right_schema,
    );
    assert!(result.is_err());
}

#[test]
fn test_resolve_join_columns_both_qualified() {
    // Both columns qualified - should work normally
    let left_schema = LogicalSchema::new(vec![
        make_column_info("id", Type::Integer, "left"),
        make_column_info("name", Type::Text, "left"),
    ]);
    let right_schema = LogicalSchema::new(vec![
        make_column_info("id", Type::Integer, "right"),
        make_column_info("value", Type::Integer, "right"),
    ]);

    let left_id = Column {
        name: "id".to_string(),
        table: Some("left".to_string()),
    };
    let right_id = Column {
        name: "id".to_string(),
        table: Some("right".to_string()),
    };

    let result =
        DbspCompiler::resolve_join_columns(&left_id, &right_id, &left_schema, &right_schema);
    assert!(result.is_ok());
    let (actual_left, left_idx, actual_right, right_idx) = result.unwrap();
    assert_eq!(actual_left.name, "id");
    assert_eq!(left_idx, 0);
    assert_eq!(actual_right.name, "id");
    assert_eq!(right_idx, 0);
}

#[test]
fn test_resolve_join_columns_both_unqualified_same_name() {
    // Both columns unqualified with same name existing in both tables - should succeed
    // (first match wins based on order of checking)
    let left_schema = LogicalSchema::new(vec![make_column_info("id", Type::Integer, "left")]);
    let right_schema = LogicalSchema::new(vec![make_column_info("id", Type::Integer, "right")]);

    let id_col1 = Column {
        name: "id".to_string(),
        table: None,
    };
    let id_col2 = Column {
        name: "id".to_string(),
        table: None,
    };

    let result =
        DbspCompiler::resolve_join_columns(&id_col1, &id_col2, &left_schema, &right_schema);
    // Should succeed - unqualified 'id' matches in both schemas
    assert!(result.is_ok());
}

#[test]
fn test_resolve_join_columns_first_not_found() {
    // First column doesn't exist anywhere
    let left_schema = LogicalSchema::new(vec![make_column_info("id", Type::Integer, "left")]);
    let right_schema =
        LogicalSchema::new(vec![make_column_info("value", Type::Integer, "right")]);

    let missing_col = Column {
        name: "missing".to_string(),
        table: None,
    };
    let value_col = Column {
        name: "value".to_string(),
        table: None,
    };

    let result = DbspCompiler::resolve_join_columns(
        &missing_col,
        &value_col,
        &left_schema,
        &right_schema,
    );
    assert!(result.is_err());
    assert!(result
        .unwrap_err()
        .message()
        .contains("not found in either input"));
}

#[test]
fn test_resolve_join_columns_both_unqualified_different_names() {
    // Both unqualified, each exists in only one table
    let left_schema =
        LogicalSchema::new(vec![make_column_info("left_id", Type::Integer, "left")]);
    let right_schema =
        LogicalSchema::new(vec![make_column_info("right_id", Type::Integer, "right")]);

    let left_col = Column {
        name: "left_id".to_string(),
        table: None,
    };
    let right_col = Column {
        name: "right_id".to_string(),
        table: None,
    };

    let result =
        DbspCompiler::resolve_join_columns(&left_col, &right_col, &left_schema, &right_schema);
    assert!(result.is_ok());
    let (actual_left, left_idx, actual_right, right_idx) = result.unwrap();
    assert_eq!(actual_left.name, "left_id");
    assert_eq!(left_idx, 0);
    assert_eq!(actual_right.name, "right_id");
    assert_eq!(right_idx, 0);
}

#[test]
fn a_cte_that_is_not_defined_is_refused() {
    let plan = LogicalPlan::CTERef { name: "nowhere".to_string(), schema: users_schema() };
    assert_eq!(refusal(&plan), "CTE 'nowhere' not found");
}

#[test]
fn a_plain_comparison_is_tested_as_it_is() {
    let circuit = compile(&filtered(users(), of_age()));
    assert_eq!(circuit.nodes.len(), 2);
    match &get_node_at_level(&circuit, 0).executable {
        Executable::Filter(f) => assert_eq!(
            *f,
            FilterPredicate::GreaterThan { column_idx: 2, value: Value::from_i64(18) }
        ),
        other => panic!("{other:?}"),
    }
}

/// A predicate that computes something is split: a projection computes it, the filter tests it,
/// and another projection drops it again.
#[test]
fn a_computed_comparison_is_projected_first() {
    let doubled = binary(column("age"), BinaryOperator::Multiply, number(2));
    let circuit =
        compile(&filtered(users(), binary(doubled, BinaryOperator::Greater, number(36))));
    assert_eq!(circuit.nodes.len(), 4);
    assert!(matches!(
        get_node_at_level(&circuit, 0).operator,
        DbspOperator::Projection { .. }
    ));
    assert_filter(&circuit, 1);
    match &get_node_at_level(&circuit, 2).executable {
        Executable::Project { output_names, .. } => {
            assert_eq!(*output_names, vec!["id", "name", "age", "__temp_filter_expr"]);
        }
        other => panic!("{other:?}"),
    }
    assert_eq!(circuit.output_schema, users_schema());
}

#[test]
fn sorting_and_limiting_add_no_nodes() {
    let plain = compile(&projected(users(), &["name"]));
    let sorted = compile(&LogicalPlan::Limit {
        input: Box::new(LogicalPlan::Sort {
            input: Box::new(projected(users(), &["name"])),
            exprs: vec![column("name")],
        }),
        fetch: Some(3),
    });
    assert_eq!(format!("{:?}", plain.nodes), format!("{:?}", sorted.nodes));
    assert_eq!(plain.root, sorted.root);
}

#[test]
fn the_roots_of_the_view_are_kept() {
    let circuit = compile(&users());
    assert_eq!(circuit.main_data_root, 2);
    assert_eq!(circuit.internal_state_root, 3);
    assert_eq!(circuit.internal_state_index_root, 4);
    assert_eq!(circuit.root, Some(1));
}

fn joined(join_type: LogicalJoinType, filter: Option<LogicalExpr>) -> LogicalPlan {
    let mut columns = users_schema().columns;
    columns.append(&mut orders_schema().columns);
    LogicalPlan::Join {
        left: Box::new(users()),
        right: Box::new(orders()),
        join_type,
        on: vec![(column("user_id"), column("id"))],
        filter: filter.map(Box::new),
        schema: LogicalSchema::new(columns),
    }
}

/// The keys are told apart by the side they belong to, in whichever order they are written.
#[test]
fn a_join_is_keyed_by_both_sides() {
    let circuit = compile(&joined(LogicalJoinType::Inner, None));
    assert_eq!(circuit.nodes.len(), 3);
    match &get_node_at_level(&circuit, 0).executable {
        Executable::Join { join_type, left_keys, right_keys, .. } => {
            assert_eq!(*join_type, JoinType::Inner);
            assert_eq!(*left_keys, vec![0]);
            assert_eq!(*right_keys, vec![1]);
        }
        other => panic!("{other:?}"),
    }
}

/// A condition that reads one side goes below the join.
#[test]
fn a_one_sided_condition_is_pushed_below_the_join() {
    let circuit = compile(&joined(LogicalJoinType::Inner, Some(of_age())));
    assert_eq!(circuit.nodes.len(), 4);
    assert_filter(&circuit, 1);
    assert_input(&circuit, 2, "users");
}

/// A LEFT JOIN is an inner join, an antijoin for the rows without a match, and a merge of both.
#[test]
fn a_left_join_is_three_operators() {
    let circuit = compile(&joined(LogicalJoinType::Left, None));
    assert_eq!(circuit.nodes.len(), 5);
    let merge = get_node_at_level(&circuit, 0);
    assert!(matches!(merge.operator, DbspOperator::Merge { .. }));
    let inner = circuit.node(merge.inputs[0]).unwrap();
    let anti = circuit.node(merge.inputs[1]).unwrap();
    assert!(matches!(inner.operator, DbspOperator::Join { join_type: JoinType::Inner, .. }));
    assert!(matches!(anti.operator, DbspOperator::Antijoin { right_column_count: 2, .. }));
    assert_eq!(inner.inputs, anti.inputs);
}

#[test]
fn a_left_join_keeps_its_left_rows() {
    assert_eq!(
        refusal(&joined(LogicalJoinType::Left, Some(of_age()))),
        "LEFT JOIN with non-equijoin ON-conjuncts referencing only the left side is not yet \
         supported in incremental views"
    );
}

#[test]
fn a_join_without_an_equality_is_refused() {
    let plan = LogicalPlan::Join {
        left: Box::new(users()),
        right: Box::new(orders()),
        join_type: LogicalJoinType::Inner,
        on: vec![],
        filter: None,
        schema: users_schema(),
    };
    assert_eq!(
        refusal(&plan),
        "Joins in materialized views must have at least one equality condition."
    );
}

fn aggregate(fun: AggFunc, args: Vec<LogicalExpr>, distinct: bool) -> LogicalPlan {
    LogicalPlan::Aggregate {
        input: Box::new(users()),
        group_expr: vec![column("name")],
        aggr_expr: vec![LogicalExpr::AggregateFunction { fun, args, distinct, filter: None }],
        schema: LogicalSchema::new(vec![
            make_column_info("name", Type::Text, "users"),
            make_column_info("total", Type::Integer, "users"),
        ]),
    }
}

#[test]
fn an_aggregate_is_keyed_by_its_groups() {
    let circuit = compile(&aggregate(AggFunc::Sum, vec![column("age")], false));
    match &get_node_at_level(&circuit, 0).executable {
        Executable::Aggregate { operator_id, group_by, functions, .. } => {
            assert_eq!(*operator_id, 2);
            assert_eq!(*group_by, vec![1]);
            assert_eq!(*functions, vec![AggregateFunction::Sum(2)]);
        }
        other => panic!("{other:?}"),
    }
}

#[test]
fn distinct_arguments_are_told_apart() {
    let circuit = compile(&aggregate(AggFunc::Count, vec![column("age")], true));
    match &get_node_at_level(&circuit, 0).operator {
        DbspOperator::Aggregate { aggr_exprs, .. } => {
            assert_eq!(*aggr_exprs, vec![AggregateFunction::CountDistinct(2)]);
        }
        other => panic!("{other:?}"),
    }
}

#[test]
fn distinct_groups_by_every_column() {
    let circuit = compile(&LogicalPlan::Distinct { input: Box::new(users()) });
    match &get_node_at_level(&circuit, 0).executable {
        Executable::Aggregate { group_by, functions, .. } => {
            assert_eq!(*group_by, vec![0, 1, 2]);
            assert!(functions.is_empty());
        }
        other => panic!("{other:?}"),
    }
}

fn union(inputs: Vec<LogicalPlan>, all: bool) -> LogicalPlan {
    LogicalPlan::Union { inputs, all, schema: users_schema() }
}

/// Rows that are all kept are kept apart by where they come from.
#[test]
fn a_union_all_names_its_sides() {
    let circuit = compile(&union(vec![users(), filtered(orders(), number_of_orders())], true));
    match &get_node_at_level(&circuit, 0).executable {
        Executable::Merge { mode, .. } => assert_eq!(
            *mode,
            UnionMode::All { left_table: "users".to_string(), right_table: "orders".to_string() }
        ),
        other => panic!("{other:?}"),
    }
}

fn number_of_orders() -> LogicalExpr {
    binary(column("order_id"), BinaryOperator::Greater, number(0))
}

#[test]
fn a_union_has_two_sides() {
    assert_eq!(
        refusal(&union(vec![users()], false)),
        "UNION requires exactly 2 inputs, got 1"
    );
}

#[test]
fn values_must_be_literals() {
    let values = |e: LogicalExpr| LogicalPlan::Values {
        rows: vec![vec![number(1), e]],
        schema: orders_schema(),
    };
    let circuit = compile(&values(number(2)));
    match &get_node_at_level(&circuit, 0).executable {
        Executable::Literal { rows } => {
            assert_eq!(*rows, vec![vec![Value::from_i64(1), Value::from_i64(2)]]);
        }
        other => panic!("{other:?}"),
    }
    assert_eq!(refusal(&values(column("id"))), "VALUES expressions must be literals");
}

/// A recursive plan iterates over a delay input that its own name stands for.
#[test]
fn a_recursive_plan_reads_its_delay() {
    let itself =
        LogicalPlan::RecursiveCTERef { name: "r".to_string(), schema: users_schema() };
    let plan = LogicalPlan::RecursiveCTE {
        name: "r".to_string(),
        base_case: Box::new(users()),
        recursive_step: Box::new(filtered(itself, of_age())),
        union_all: false,
        max_iterations: None,
        schema: users_schema(),
    };
    let circuit = compile(&plan);
    let root = get_node_at_level(&circuit, 0);
    match &root.operator {
        DbspOperator::Recursive { max_iterations, .. } => {
            assert_eq!(*max_iterations, DEFAULT_RECURSIVE_MAX_ITERATIONS);
        }
        other => panic!("{other:?}"),
    }
    let delay = circuit.node(root.inputs[2]).unwrap();
    assert!(matches!(&delay.operator, DbspOperator::Input { name, .. } if name == "__delay_r"));
    let step = circuit.node(root.inputs[1]).unwrap();
    assert_eq!(step.inputs, vec![delay.id]);
    assert_eq!(circuit.recursive_nodes(), vec![root.id]);
    assert_eq!(circuit.nodes_to_restore(&vec![true]), vec![root.id]);
    assert_eq!(circuit.nodes_to_restore(&vec![false]), Vec::<i64>::new());
}

#[test]
fn a_recursive_name_must_be_in_scope() {
    let plan = LogicalPlan::RecursiveCTERef { name: "r".to_string(), schema: users_schema() };
    assert_eq!(refusal(&plan), "Recursive CTE reference 'r' not found in scope");
}

#[test]
fn a_column_that_is_not_there_is_refused() {
    let circuit =
        try_compile(&filtered(users(), binary(column("x"), BinaryOperator::Equals, number(1))));
    assert!(matches!(circuit, Err(LimboError::ParseError(_))));
}

#[test]
fn a_circuit_is_written_from_its_root_down() {
    let circuit = compile(&projected(filtered(users(), of_age()), &["name"]));
    assert_eq!(
        circuit.describe(),
        "DBSP Circuit:\n\
         Projection[3]: [Column(\"name\")]\n\
         \x20 Filter[2]: BinaryExpr { left: Column(\"age\"), op: Greater, right: \
         Literal(Numeric(Integer(18))) }\n\
         \x20   Input[1]: users\n"
    );
    let joined = compile(&joined(LogicalJoinType::Inner, None)).describe();
    assert_eq!(
        joined,
        "DBSP Circuit:\n\
         Join[3]: Inner ON [(Column(\"id\"), Column(\"user_id\"))]\n\
         \x20 Input[1]: users\n\
         \x20 Input[2]: orders\n"
    );
}

/// Names and texts stand in quotes, and what would end them or break the line is escaped.
#[test]
fn text_is_quoted() {
    for text in ["", "plain", "say \"x\"", "back\\slash", "a\nb\rc\td\0e", "it's", "\u{e9}", "\u{1}\u{1b}\u{7f}~",
        "\u{a0}\u{200b}\u{301}e\u{301}\u{1f600}\u{e000}", "\u{85}\u{2028}"] {
        assert_eq!(quote(text), format!("{text:?}"));
    }
    assert_eq!(write_value(&Value::Text("a\"b".to_string())), "Text(\"a\\\"b\")");
    assert_eq!(write_value(&Value::Null), "Null");
    assert_eq!(write_value(&Value::from_i64(-3)), "Numeric(Integer(-3))");
    assert_eq!(write_value(&Value::Blob(vec![1, 255])), "Blob([1, 255])");
    let circuit = compile(&filtered(
        users(),
        binary(
            column("name"),
            BinaryOperator::Equals,
            LogicalExpr::Literal(Value::Text("O\"Neil".to_string())),
        ),
    ));
    assert!(circuit.describe().contains("Literal(Text(\"O\\\"Neil\"))"));
}

#[test]
fn a_circuit_without_state_is_run_once() {
    assert!(DbspCircuit::new_table_only(2, 0, 0).is_one_shot());
    let kept = DbspCircuit::new_table_only(2, 3, 4);
    assert!(!kept.is_one_shot());
    assert_eq!(kept.limit, None);
    assert_eq!(kept.describe(), "DBSP Circuit:\n");
}
