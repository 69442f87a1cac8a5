//! Adding aggregates to a circuit.

use vstd::prelude::*;

use crate::builder::{added, built, column_names, one_input, same_frame, schema_names, Built};
use crate::circuit::{
    filter_view, filter_views, function_views, positions, AggregateFunction,
    AggregateFunctionView, DbspCircuit, DbspOperator, Executable, ExecutableView, NodeView,
    OperatorView,
};
use crate::error::{parse_error, ErrorView, LimboError};
use crate::expr::{
    aggregate_debug, aggregate_debug_str, dbsp_views, DbspExpr, DbspExprView,
};
use crate::filter::{compile_filter_predicate, filter_of, FilterPredicate, FilterView};
use crate::logical::{
    lemma_lexpr_views, lexpr_views, AggFunc, ColumnInfoView, LogicalExpr, LogicalExprView,
    LogicalSchema,
};
use crate::plan::column_position;
use crate::text::{decimal, decimal_usize};
use crate::value::{Datum, Value};

verus! {

// The columns to group by.

/// The column that an expression of a GROUP BY stands for, with its name.
pub open spec fn group_key(e: LogicalExprView, schema: Seq<ColumnInfoView>) -> Result<
    (int, Seq<char>),
    Seq<char>,
> {
    match e {
        LogicalExprView::Column(c) => match column_position(schema, c.name, c.table) {
            Some(i) => Ok((i, c.name)),
            None => Err("GROUP BY column '"@ + c.name + "' not found in input"@),
        },
        _ => Err("Only column references are supported in GROUP BY for incremental views"@),
    }
}

pub open spec fn group_keys(list: Seq<LogicalExprView>, schema: Seq<ColumnInfoView>) -> Result<
    Seq<(int, Seq<char>)>,
    Seq<char>,
>
    decreases list.len(),
{
    if list.len() == 0 {
        Ok(Seq::empty())
    } else {
        match (group_keys(list.drop_last(), schema), group_key(list.last(), schema)) {
            (Err(m), _) => Err(m),
            (_, Err(m)) => Err(m),
            (Ok(front), Ok(last)) => Ok(front.push(last)),
        }
    }
}

proof fn lemma_group_keys_prefix(
    list: Seq<LogicalExprView>,
    schema: Seq<ColumnInfoView>,
    n: int,
)
    requires
        0 <= n <= list.len(),
        group_keys(list.take(n), schema) is Err,
    ensures
        group_keys(list, schema) == group_keys(list.take(n), schema),
    decreases list.len() - n,
{
    if n == list.len() {
        assert(list.take(n) =~= list);
    } else {
        assert(list.take(n + 1).drop_last() =~= list.take(n));
        lemma_group_keys_prefix(list, schema, n + 1);
    }
}

pub open spec fn key_positions(keys: Seq<(int, Seq<char>)>) -> Seq<int> {
    keys.map_values(|k: (int, Seq<char>)| k.0)
}

pub open spec fn key_exprs(keys: Seq<(int, Seq<char>)>) -> Seq<DbspExprView> {
    keys.map_values(|k: (int, Seq<char>)| DbspExprView::Column(k.1))
}

fn not_found_in_input(label: &str, name: &str) -> (r: LimboError)
    ensures
        r@ == ErrorView::ParseError(label@ + " column '"@ + name@ + "' not found in input"@),
{
    let mut m = label.to_owned();
    m.append(" column '");
    m.append(name);
    m.append("' not found in input");
    LimboError::ParseError(m)
}

/// Finds the columns to group by.
pub fn compile_group_keys(group_expr: &Vec<LogicalExpr>, schema: &LogicalSchema) -> (r: Result<
    (Vec<usize>, Vec<DbspExpr>),
    LimboError,
>)
    ensures
        match group_keys(lexpr_views(group_expr@), schema@) {
            Ok(keys) => r matches Ok(pair) && positions(pair.0@) == key_positions(keys)
                && dbsp_views(pair.1@) == key_exprs(keys),
            Err(m) => r matches Err(e) && e@ == ErrorView::ParseError(m),
        },
{
    let ghost views = lexpr_views(group_expr@);
    let ghost s = schema@;
    let mut indices: Vec<usize> = Vec::new();
    let mut exprs: Vec<DbspExpr> = Vec::new();
    let ghost mut keys: Seq<(int, Seq<char>)> = Seq::empty();
    let mut i: usize = 0;
    proof {
        lemma_lexpr_views(group_expr@);
        assert(views.take(0) =~= Seq::<LogicalExprView>::empty());
    }
    while i < group_expr.len()
        invariant
            i <= group_expr.len(),
            views == lexpr_views(group_expr@),
            views.len() == group_expr@.len(),
            s == schema@,
            group_keys(views.take(i as int), s) == Ok::<Seq<(int, Seq<char>)>, Seq<char>>(keys),
            keys.len() == i,
            indices@.len() == i,
            exprs@.len() == i,
            forall|j: int| 0 <= j < i ==> (#[trigger] keys[j]).0 == indices@[j],
            forall|j: int|
                0 <= j < i ==> (#[trigger] exprs@[j]).view() == DbspExprView::Column(keys[j].1),
        decreases group_expr.len() - i,
    {
        proof {
            lemma_lexpr_views(group_expr@);
            assert(views.take(i + 1).drop_last() =~= views.take(i as int));
            assert(views.take(i + 1).last() == group_expr@[i as int].view());
        }
        match &group_expr[i] {
            LogicalExpr::Column(col) => match schema.find_column(col) {
                Some(at) => {
                    proof {
                        keys = keys.push((at as int, col@.name));
                    }
                    indices.push(at);
                    exprs.push(DbspExpr::Column(col.name.clone()));
                },
                None => {
                    proof {
                        lemma_group_keys_prefix(views, s, i + 1);
                        reveal_strlit("GROUP BY column '");
                        reveal_strlit("GROUP BY");
                        reveal_strlit(" column '");
                        assert("GROUP BY"@ + " column '"@ =~= "GROUP BY column '"@);
                    }
                    return Err(not_found_in_input("GROUP BY", col.name.as_str()));
                },
            },
            _ => {
                proof {
                    lemma_group_keys_prefix(views, s, i + 1);
                }
                return Err(
                    parse_error(
                        "Only column references are supported in GROUP BY for incremental views",
                    ),
                );
            },
        }
        i += 1;
    }
    proof {
        assert(views.take(i as int) =~= views);
        assert(positions(indices@) =~= key_positions(keys));
        assert(dbsp_views(exprs@) =~= key_exprs(keys));
    }
    Ok((indices, exprs))
}

// Aggregate functions.

/// The column that the first argument of an aggregate names.
pub open spec fn argument_column(
    args: Seq<LogicalExprView>,
    schema: Seq<ColumnInfoView>,
    label: Seq<char>,
    place: Seq<char>,
) -> Result<int, Seq<char>> {
    if args.len() == 0 {
        Err(label + " requires an argument"@)
    } else {
        match args[0] {
            LogicalExprView::Column(c) => match column_position(schema, c.name, c.table) {
                Some(i) => Ok(i),
                None => Err(label + " column '"@ + c.name + "' not found in input"@),
            },
            _ => Err("Only column references are supported in "@ + place + " for incremental views"@),
        }
    }
}

fn find_argument_column(
    args: &Vec<LogicalExpr>,
    schema: &LogicalSchema,
    label: &str,
    place: &str,
) -> (r: Result<usize, LimboError>)
    ensures
        match argument_column(lexpr_views(args@), schema@, label@, place@) {
            Ok(i) => r matches Ok(at) && at == i,
            Err(m) => r matches Err(e) && e@ == ErrorView::ParseError(m),
        },
{
    proof {
        lemma_lexpr_views(args@);
    }
    if args.len() == 0 {
        let mut m = label.to_owned();
        m.append(" requires an argument");
        return Err(LimboError::ParseError(m));
    }
    match &args[0] {
        LogicalExpr::Column(col) => match schema.find_column(col) {
            Some(at) => Ok(at),
            None => Err(not_found_in_input(label, col.name.as_str())),
        },
        _ => {
            let mut m = "Only column references are supported in ".to_owned();
            m.append(place);
            m.append(" for incremental views");
            Err(LimboError::ParseError(m))
        },
    }
}

/// What stands between the texts that `group_concat` joins.
pub open spec fn separator_of(args: Seq<LogicalExprView>) -> Result<Seq<char>, Seq<char>> {
    if args.len() < 2 {
        Ok(","@)
    } else {
        match args[1] {
            LogicalExprView::Literal(Datum::Text(t)) => Ok(t),
            LogicalExprView::Literal(Datum::Null) => Err(
                "group_concat separator must be a non-NULL string literal in incremental views"@,
            ),
            _ => Err("group_concat separator must be a string literal in incremental views"@),
        }
    }
}

fn find_separator(args: &Vec<LogicalExpr>) -> (r: Result<String, LimboError>)
    ensures
        match separator_of(lexpr_views(args@)) {
            Ok(s) => r matches Ok(text) && text@ == s,
            Err(m) => r matches Err(e) && e@ == ErrorView::ParseError(m),
        },
{
    proof {
        lemma_lexpr_views(args@);
    }
    if args.len() < 2 {
        return Ok(",".to_owned());
    }
    match &args[1] {
        LogicalExpr::Literal(Value::Text(t)) => Ok(t.clone()),
        LogicalExpr::Literal(Value::Null) => Err(
            parse_error(
                "group_concat separator must be a non-NULL string literal in incremental views",
            ),
        ),
        _ => Err(
            parse_error("group_concat separator must be a string literal in incremental views"),
        ),
    }
}

/// The aggregates whose state does not see a FILTER: those that count rows or read the ends of an
/// index, and those that keep a set of distinct values.
pub open spec fn ignores_filter(fun: AggFunc, distinct: bool) -> bool {
    match fun {
        AggFunc::Count | AggFunc::Count0 | AggFunc::Min | AggFunc::Max => true,
        AggFunc::JsonGroupArray
        | AggFunc::JsonbGroupArray
        | AggFunc::GroupConcat
        | AggFunc::StringAgg => false,
        _ => distinct,
    }
}

fn does_ignore_filter(fun: AggFunc, distinct: bool) -> (r: bool)
    ensures
        r == ignores_filter(fun, distinct),
{
    match fun {
        AggFunc::Count | AggFunc::Count0 | AggFunc::Min | AggFunc::Max => true,
        AggFunc::JsonGroupArray
        | AggFunc::JsonbGroupArray
        | AggFunc::GroupConcat
        | AggFunc::StringAgg => false,
        _ => distinct,
    }
}

pub open spec fn filter_refusal(fun: AggFunc, distinct: bool) -> Seq<char> {
    "FILTER not supported with "@ + aggregate_debug(fun) + (if distinct {
        " DISTINCT"@
    } else {
        ""@
    }) + " in incremental views (v1 limitation)"@
}

pub open spec fn anywhere() -> Seq<char> {
    "aggregate functions"@
}

/// The function that maintains an aggregate.
pub open spec fn function_of(
    fun: AggFunc,
    args: Seq<LogicalExprView>,
    distinct: bool,
    schema: Seq<ColumnInfoView>,
) -> Result<AggregateFunctionView, Seq<char>> {
    match fun {
        AggFunc::Count | AggFunc::Count0 => if !distinct {
            Ok(AggregateFunctionView::Count)
        } else {
            match argument_column(args, schema, "COUNT(DISTINCT)"@, anywhere()) {
                Ok(c) => Ok(AggregateFunctionView::CountDistinct(c)),
                Err(m) => Err(m),
            }
        },
        AggFunc::Sum => match argument_column(args, schema, "SUM"@, anywhere()) {
            Ok(c) => Ok(
                if distinct {
                    AggregateFunctionView::SumDistinct(c)
                } else {
                    AggregateFunctionView::Sum(c)
                },
            ),
            Err(m) => Err(m),
        },
        AggFunc::Avg => match argument_column(args, schema, "AVG"@, anywhere()) {
            Ok(c) => Ok(
                if distinct {
                    AggregateFunctionView::AvgDistinct(c)
                } else {
                    AggregateFunctionView::Avg(c)
                },
            ),
            Err(m) => Err(m),
        },
        AggFunc::Min => match argument_column(args, schema, "MIN"@, "MIN"@) {
            Ok(c) => Ok(AggregateFunctionView::Min(c)),
            Err(m) => Err(m),
        },
        AggFunc::Max => match argument_column(args, schema, "MAX"@, "MAX"@) {
            Ok(c) => Ok(AggregateFunctionView::Max(c)),
            Err(m) => Err(m),
        },
        AggFunc::GroupConcat | AggFunc::StringAgg => match (
            argument_column(args, schema, "group_concat"@, anywhere()),
            separator_of(args),
        ) {
            (Err(m), _) => Err(m),
            (_, Err(m)) => Err(m),
            (Ok(col), Ok(separator)) => Ok(
                if distinct {
                    AggregateFunctionView::GroupConcatDistinct { col, separator }
                } else {
                    AggregateFunctionView::GroupConcat { col, separator }
                },
            ),
        },
        AggFunc::JsonGroupArray | AggFunc::JsonbGroupArray => match argument_column(
            args,
            schema,
            "json_group_array"@,
            anywhere(),
        ) {
            Ok(c) => Ok(
                if distinct {
                    AggregateFunctionView::JsonGroupArrayDistinct(c)
                } else {
                    AggregateFunctionView::JsonGroupArray(c)
                },
            ),
            Err(m) => Err(m),
        },
        AggFunc::ArrayAgg => Err(
            "array_agg is not supported in incremental views; use json_group_array instead"@,
        ),
        _ => Err("Unsupported aggregate function in DBSP compiler: "@ + aggregate_debug(fun)),
    }
}

/// The function that maintains an aggregate, and its FILTER.
pub open spec fn aggregate_of(e: LogicalExprView, schema: Seq<ColumnInfoView>) -> Result<
    (AggregateFunctionView, Option<FilterView>),
    Seq<char>,
> {
    match e {
        LogicalExprView::AggregateFunction { fun, args, distinct, filter } => if filter is Some
            && ignores_filter(fun, distinct) {
            Err(filter_refusal(fun, distinct))
        } else {
            match function_of(fun, args, distinct, schema) {
                Err(m) => Err(m),
                Ok(f) => match filter {
                    None => Ok((f, None)),
                    Some(p) => match filter_of(*p, schema) {
                        Ok(filter) => Ok((f, Some(filter))),
                        Err(m) => Err(
                            "FILTER expression on aggregate is unsupported: Parse error: "@ + m,
                        ),
                    },
                },
            }
        },
        _ => Err("Expected aggregate function in aggregate expressions"@),
    }
}

fn compile_function(
    fun: AggFunc,
    args: &Vec<LogicalExpr>,
    distinct: bool,
    schema: &LogicalSchema,
) -> (r: Result<AggregateFunction, LimboError>)
    ensures
        match function_of(fun, lexpr_views(args@), distinct, schema@) {
            Ok(f) => r matches Ok(function) && function@ == f,
            Err(m) => r matches Err(e) && e@ == ErrorView::ParseError(m),
        },
{
    match fun {
        AggFunc::Count | AggFunc::Count0 => {
            if !distinct {
                return Ok(AggregateFunction::Count);
            }
            match find_argument_column(args, schema, "COUNT(DISTINCT)", "aggregate functions") {
                Ok(c) => Ok(AggregateFunction::CountDistinct(c)),
                Err(e) => Err(e),
            }
        },
        AggFunc::Sum => match find_argument_column(args, schema, "SUM", "aggregate functions") {
            Ok(c) => if distinct {
                Ok(AggregateFunction::SumDistinct(c))
            } else {
                Ok(AggregateFunction::Sum(c))
            },
            Err(e) => Err(e),
        },
        AggFunc::Avg => match find_argument_column(args, schema, "AVG", "aggregate functions") {
            Ok(c) => if distinct {
                Ok(AggregateFunction::AvgDistinct(c))
            } else {
                Ok(AggregateFunction::Avg(c))
            },
            Err(e) => Err(e),
        },
        AggFunc::Min => match find_argument_column(args, schema, "MIN", "MIN") {
            Ok(c) => Ok(AggregateFunction::Min(c)),
            Err(e) => Err(e),
        },
        AggFunc::Max => match find_argument_column(args, schema, "MAX", "MAX") {
            Ok(c) => Ok(AggregateFunction::Max(c)),
            Err(e) => Err(e),
        },
        AggFunc::GroupConcat | AggFunc::StringAgg => {
            let col: usize = match find_argument_column(
                args,
                schema,
                "group_concat",
                "aggregate functions",
            ) {
                Ok(c) => c,
                Err(e) => return Err(e),
            };
            match find_separator(args) {
                Ok(separator) => if distinct {
                    Ok(AggregateFunction::GroupConcatDistinct { col, separator })
                } else {
                    Ok(AggregateFunction::GroupConcat { col, separator })
                },
                Err(e) => Err(e),
            }
        },
        AggFunc::JsonGroupArray | AggFunc::JsonbGroupArray => match find_argument_column(
            args,
            schema,
            "json_group_array",
            "aggregate functions",
        ) {
            Ok(c) => if distinct {
                Ok(AggregateFunction::JsonGroupArrayDistinct(c))
            } else {
                Ok(AggregateFunction::JsonGroupArray(c))
            },
            Err(e) => Err(e),
        },
        AggFunc::ArrayAgg => Err(
            parse_error(
                "array_agg is not supported in incremental views; use json_group_array instead",
            ),
        ),
        _ => {
            let mut m = "Unsupported aggregate function in DBSP compiler: ".to_owned();
            m.append(aggregate_debug_str(fun));
            Err(LimboError::ParseError(m))
        },
    }
}

fn refuse_filter(fun: AggFunc, distinct: bool) -> (r: LimboError)
    ensures
        r@ == ErrorView::ParseError(filter_refusal(fun, distinct)),
{
    let mut m = "FILTER not supported with ".to_owned();
    m.append(aggregate_debug_str(fun));
    m.append(
        if distinct {
            " DISTINCT"
        } else {
            ""
        },
    );
    m.append(" in incremental views (v1 limitation)");
    LimboError::ParseError(m)
}

/// Compiles an aggregate and its FILTER.
pub fn compile_aggregate_call(e: &LogicalExpr, schema: &LogicalSchema) -> (r: Result<
    (AggregateFunction, Option<FilterPredicate>),
    LimboError,
>)
    ensures
        match aggregate_of(e.view(), schema@) {
            Ok(a) => r matches Ok(pair) && pair.0@ == a.0 && filter_view(pair.1) == a.1,
            Err(m) => r matches Err(err) && err@ == ErrorView::ParseError(m),
        },
{
    proof {
        reveal_with_fuel(LogicalExpr::view, 2);
    }
    match e {
        LogicalExpr::AggregateFunction { fun, args, distinct, filter } => {
            if filter.is_some() && does_ignore_filter(*fun, *distinct) {
                return Err(refuse_filter(*fun, *distinct));
            }
            let function = match compile_function(*fun, args, *distinct, schema) {
                Ok(f) => f,
                Err(err) => return Err(err),
            };
            match filter {
                None => Ok((function, None)),
                Some(p) => match compile_filter_predicate(p, schema) {
                    Ok(predicate) => Ok((function, Some(predicate))),
                    Err(err) => {
                        let mut m =
                            "FILTER expression on aggregate is unsupported: Parse error: ".to_owned();
                        m.append(err.message().as_str());
                        Err(LimboError::ParseError(m))
                    },
                },
            }
        },
        _ => Err(parse_error("Expected aggregate function in aggregate expressions")),
    }
}

/// The functions and the filters of some aggregates, or the first error.
pub open spec fn aggregates_of(list: Seq<LogicalExprView>, schema: Seq<ColumnInfoView>) -> Result<
    Seq<(AggregateFunctionView, Option<FilterView>)>,
    Seq<char>,
>
    decreases list.len(),
{
    if list.len() == 0 {
        Ok(Seq::empty())
    } else {
        match (aggregates_of(list.drop_last(), schema), aggregate_of(list.last(), schema)) {
            (Err(m), _) => Err(m),
            (_, Err(m)) => Err(m),
            (Ok(front), Ok(last)) => Ok(front.push(last)),
        }
    }
}

proof fn lemma_aggregates_prefix(
    list: Seq<LogicalExprView>,
    schema: Seq<ColumnInfoView>,
    n: int,
)
    requires
        0 <= n <= list.len(),
        aggregates_of(list.take(n), schema) is Err,
    ensures
        aggregates_of(list, schema) == aggregates_of(list.take(n), schema),
    decreases list.len() - n,
{
    if n == list.len() {
        assert(list.take(n) =~= list);
    } else {
        assert(list.take(n + 1).drop_last() =~= list.take(n));
        lemma_aggregates_prefix(list, schema, n + 1);
    }
}

pub type Aggregates = Seq<(AggregateFunctionView, Option<FilterView>)>;

pub open spec fn functions_of(list: Aggregates) -> Seq<AggregateFunctionView> {
    list.map_values(|a: (AggregateFunctionView, Option<FilterView>)| a.0)
}

pub open spec fn filters_of(list: Aggregates) -> Seq<Option<FilterView>> {
    list.map_values(|a: (AggregateFunctionView, Option<FilterView>)| a.1)
}

/// The column that an aggregate function reads, if it reads one.
pub open spec fn function_column(f: AggregateFunctionView) -> Option<int> {
    match f {
        AggregateFunctionView::Count => None,
        AggregateFunctionView::CountDistinct(c) => Some(c),
        AggregateFunctionView::Sum(c) => Some(c),
        AggregateFunctionView::SumDistinct(c) => Some(c),
        AggregateFunctionView::Avg(c) => Some(c),
        AggregateFunctionView::AvgDistinct(c) => Some(c),
        AggregateFunctionView::Min(c) => Some(c),
        AggregateFunctionView::Max(c) => Some(c),
        AggregateFunctionView::JsonGroupArray(c) => Some(c),
        AggregateFunctionView::JsonGroupArrayDistinct(c) => Some(c),
        AggregateFunctionView::GroupConcat { col, .. } => Some(col),
        AggregateFunctionView::GroupConcatDistinct { col, .. } => Some(col),
    }
}

fn column_read(f: &AggregateFunction) -> (r: Option<usize>)
    ensures
        match r {
            Some(c) => function_column(f@) == Some(c as int),
            None => function_column(f@) is None,
        },
{
    match f {
        AggregateFunction::Count => None,
        AggregateFunction::CountDistinct(c) => Some(*c),
        AggregateFunction::Sum(c) => Some(*c),
        AggregateFunction::SumDistinct(c) => Some(*c),
        AggregateFunction::Avg(c) => Some(*c),
        AggregateFunction::AvgDistinct(c) => Some(*c),
        AggregateFunction::Min(c) => Some(*c),
        AggregateFunction::Max(c) => Some(*c),
        AggregateFunction::JsonGroupArray(c) => Some(*c),
        AggregateFunction::JsonGroupArrayDistinct(c) => Some(*c),
        AggregateFunction::GroupConcat { col, .. } => Some(*col),
        AggregateFunction::GroupConcatDistinct { col, .. } => Some(*col),
    }
}

/// Whether two aggregates read one column under different filters. State is kept per column, so
/// one would overwrite the other's.
pub open spec fn clash(list: Aggregates, i: int, j: int) -> bool {
    &&& function_column(list[i].0) is Some
    &&& function_column(list[i].0) == function_column(list[j].0)
    &&& list[i].1 != list[j].1
}

/// The first aggregate that clashes with one before it.
pub open spec fn first_clash(list: Aggregates, at: int) -> bool {
    &&& 0 <= at < list.len()
    &&& exists|i: int| 0 <= i < at && #[trigger] clash(list, i, at)
    &&& forall|i: int, j: int| 0 <= i < j < at ==> !#[trigger] clash(list, i, j)
}

/// The column over which aggregates clash first.
pub open spec fn clashing_column(list: Aggregates) -> Option<int> {
    if exists|i: int, j: int| 0 <= i < j < list.len() && #[trigger] clash(list, i, j) {
        function_column(list[choose|at: int| first_clash(list, at)].0)
    } else {
        None
    }
}

proof fn lemma_clashing_column(list: Aggregates, at: int)
    requires
        first_clash(list, at),
    ensures
        clashing_column(list) == function_column(list[at].0),
{
    let i = choose|i: int| 0 <= i < at && #[trigger] clash(list, i, at);
    assert(clash(list, i, at));
    let other = choose|at: int| first_clash(list, at);
    assert(first_clash(list, other));
    if other < at {
        let k = choose|k: int| 0 <= k < other && #[trigger] clash(list, k, other);
        assert(!clash(list, k, other));
    } else if at < other {
        assert(!clash(list, i, at));
    }
}

pub open spec fn clash_message(column: int) -> Seq<char> {
    "FILTER on aggregate over column index "@ + decimal(column as nat)
        + " conflicts with another aggregate over the same column with a different (or no) FILTER (v1 limitation)"@
}

fn same_filter(a: &Option<FilterPredicate>, b: &Option<FilterPredicate>) -> (r: bool)
    ensures
        r == (filter_view(*a) == filter_view(*b)),
{
    match (a, b) {
        (None, None) => true,
        (Some(x), Some(y)) => x.same(y),
        _ => false,
    }
}

/// Refuses aggregates over one column under different filters.
fn reject_clashes(
    functions: &Vec<AggregateFunction>,
    filters: &Vec<Option<FilterPredicate>>,
    Ghost(list): Ghost<Aggregates>,
) -> (r: Result<(), LimboError>)
    requires
        functions@.len() == list.len(),
        filters@.len() == list.len(),
        forall|i: int|
            0 <= i < list.len() ==> (#[trigger] list[i]).0 == functions@[i]@ && list[i].1
                == filter_view(filters@[i]),
    ensures
        match clashing_column(list) {
            Some(c) => r matches Err(e) && e@ == ErrorView::ParseError(clash_message(c)),
            None => r is Ok,
        },
{
    let mut j: usize = 0;
    while j < functions.len()
        invariant
            j <= functions.len(),
            functions@.len() == list.len(),
            filters@.len() == list.len(),
            forall|i: int|
                0 <= i < list.len() ==> (#[trigger] list[i]).0 == functions@[i]@ && list[i].1
                    == filter_view(filters@[i]),
            forall|a: int, b: int| 0 <= a < b < j ==> !#[trigger] clash(list, a, b),
        decreases functions.len() - j,
    {
        if let Some(column) = column_read(&functions[j]) {
            let mut i: usize = 0;
            while i < j
                invariant
                    i <= j < functions.len(),
                    functions@.len() == list.len(),
                    filters@.len() == list.len(),
                    function_column(list[j as int].0) == Some(column as int),
                    forall|i: int|
                        0 <= i < list.len() ==> (#[trigger] list[i]).0 == functions@[i]@
                            && list[i].1 == filter_view(filters@[i]),
                    forall|a: int, b: int| 0 <= a < b < j ==> !#[trigger] clash(list, a, b),
                    forall|a: int| 0 <= a < i ==> !#[trigger] clash(list, a, j as int),
                decreases j - i,
            {
                let other = column_read(&functions[i]);
                let differs = !same_filter(&filters[i], &filters[j]);
                if other == Some(column) && differs {
                    proof {
                        assert(clash(list, i as int, j as int));
                        assert(first_clash(list, j as int));
                        lemma_clashing_column(list, j as int);
                    }
                    let mut m = "FILTER on aggregate over column index ".to_owned();
                    m.append(decimal_usize(column).as_str());
                    m.append(
                        " conflicts with another aggregate over the same column with a different (or no) FILTER (v1 limitation)",
                    );
                    return Err(LimboError::ParseError(m));
                }
                i += 1;
            }
        }
        j += 1;
    }
    Ok(())
}

/// The node of an aggregate over a node.
#[verifier::opaque]
pub open spec fn aggregate_built(
    nodes: Seq<NodeView>,
    input: int,
    in_schema: Seq<ColumnInfoView>,
    group_expr: Seq<LogicalExprView>,
    aggr_expr: Seq<LogicalExprView>,
    schema: Seq<ColumnInfoView>,
) -> Built {
    match group_keys(group_expr, in_schema) {
        Err(m) => Err(ErrorView::ParseError(m)),
        Ok(keys) => match aggregates_of(aggr_expr, in_schema) {
            Err(m) => Err(ErrorView::ParseError(m)),
            Ok(list) => match clashing_column(list) {
                Some(c) => Err(ErrorView::ParseError(clash_message(c))),
                None => added(
                    nodes,
                    NodeView {
                        operator: OperatorView::Aggregate {
                            group_exprs: key_exprs(keys),
                            aggr_exprs: functions_of(list),
                            schema,
                        },
                        inputs: seq![input as i64],
                        executable: ExecutableView::Aggregate {
                            operator_id: nodes.len() as int + 1,
                            group_by: key_positions(keys),
                            functions: functions_of(list),
                            input_names: schema_names(in_schema),
                            filters: filters_of(list),
                        },
                    },
                ),
            },
        },
    }
}

fn copy_functions(list: &Vec<AggregateFunction>) -> (r: Vec<AggregateFunction>)
    ensures
        function_views(r@) == function_views(list@),
{
    let mut out: Vec<AggregateFunction> = Vec::new();
    let mut i: usize = 0;
    while i < list.len()
        invariant
            i <= list.len(),
            out@.len() == i,
            forall|j: int| 0 <= j < i ==> (#[trigger] out@[j])@ == list@[j]@,
        decreases list.len() - i,
    {
        out.push(list[i].clone());
        i += 1;
    }
    assert(function_views(out@) =~= function_views(list@));
    out
}

/// Adds an aggregate on top of a node.
pub fn compile_aggregate(
    circuit: &mut DbspCircuit,
    input_id: i64,
    input_schema: &LogicalSchema,
    group_expr: &Vec<LogicalExpr>,
    aggr_expr: &Vec<LogicalExpr>,
    schema: &LogicalSchema,
) -> (r: Result<i64, LimboError>)
    requires
        old(circuit).wf(),
        1 <= input_id <= old(circuit)@.len(),
    ensures
        final(circuit).wf(),
        same_frame(*final(circuit), *old(circuit)),
        r is Ok ==> 1 <= r->Ok_0 <= final(circuit)@.len(),
        r is Ok ==> old(circuit)@.len() <= final(circuit)@.len(),
        built(
            r,
            final(circuit)@,
            aggregate_built(
                old(circuit)@,
                input_id as int,
                input_schema@,
                lexpr_views(group_expr@),
                lexpr_views(aggr_expr@),
                schema@,
            ),
        ),
{
    proof {
        reveal(aggregate_built);
    }
    let ghost views = lexpr_views(aggr_expr@);
    let ghost s = input_schema@;
    let (group_by, group_exprs) = match compile_group_keys(group_expr, input_schema) {
        Ok(pair) => pair,
        Err(e) => return Err(e),
    };
    let ghost keys = group_keys(lexpr_views(group_expr@), s)->Ok_0;
    let mut functions: Vec<AggregateFunction> = Vec::new();
    let mut filters: Vec<Option<FilterPredicate>> = Vec::new();
    let ghost mut list: Aggregates = Seq::empty();
    let mut i: usize = 0;
    proof {
        lemma_lexpr_views(aggr_expr@);
        assert(views.take(0) =~= Seq::<LogicalExprView>::empty());
    }
    while i < aggr_expr.len()
        invariant
            i <= aggr_expr.len(),
            views == lexpr_views(aggr_expr@),
            views.len() == aggr_expr@.len(),
            s == input_schema@,
            *circuit == *old(circuit),
            circuit.wf(),
            group_keys(lexpr_views(group_expr@), s) == Ok::<Seq<(int, Seq<char>)>, Seq<char>>(
                keys,
            ),
            aggregates_of(views.take(i as int), s) == Ok::<Aggregates, Seq<char>>(list),
            list.len() == i,
            functions@.len() == i,
            filters@.len() == i,
            forall|j: int|
                0 <= j < i ==> (#[trigger] list[j]).0 == functions@[j]@ && list[j].1
                    == filter_view(filters@[j]),
        decreases aggr_expr.len() - i,
    {
        proof {
            lemma_lexpr_views(aggr_expr@);
            assert(views.take(i + 1).drop_last() =~= views.take(i as int));
            assert(views.take(i + 1).last() == aggr_expr@[i as int].view());
        }
        match compile_aggregate_call(&aggr_expr[i], input_schema) {
            Ok(pair) => {
                let (function, filter) = pair;
                proof {
                    list = list.push((function@, filter_view(filter)));
                }
                functions.push(function);
                filters.push(filter);
            },
            Err(e) => {
                proof {
                    lemma_aggregates_prefix(views, s, i + 1);
                    reveal(aggregate_built);
                }
                return Err(e);
            },
        }
        i += 1;
    }
    assert(views.take(i as int) =~= views);
    match reject_clashes(&functions, &filters, Ghost(list)) {
        Ok(()) => {},
        Err(e) => return Err(e),
    }
    proof {
        assert(function_views(functions@) =~= functions_of(list));
        assert(filter_views(filters@) =~= filters_of(list));
    }
    let operator_id: i64 = circuit.next_id;
    let aggr_exprs = copy_functions(&functions);
    let input_names = column_names(input_schema);
    circuit.add_node(
        DbspOperator::Aggregate { group_exprs, aggr_exprs, schema: schema.clone() },
        one_input(input_id),
        Executable::Aggregate { operator_id, group_by, functions, input_names, filters },
    )
}

/// The node that drops duplicates: an aggregate that groups by all columns and computes nothing.
#[verifier::opaque]
pub open spec fn distinct_built(
    nodes: Seq<NodeView>,
    input: int,
    schema: Seq<ColumnInfoView>,
) -> Built {
    added(
        nodes,
        NodeView {
            operator: OperatorView::Distinct { schema },
            inputs: seq![input as i64],
            executable: ExecutableView::Aggregate {
                operator_id: nodes.len() as int + 1,
                group_by: Seq::new(schema.len(), |i: int| i),
                functions: Seq::empty(),
                input_names: schema_names(schema),
                filters: Seq::empty(),
            },
        },
    )
}

/// Adds a node that drops duplicates on top of a node.
pub fn compile_distinct(circuit: &mut DbspCircuit, input_id: i64, schema: &LogicalSchema) -> (r:
    Result<i64, LimboError>)
    requires
        old(circuit).wf(),
        1 <= input_id <= old(circuit)@.len(),
    ensures
        final(circuit).wf(),
        same_frame(*final(circuit), *old(circuit)),
        r is Ok ==> 1 <= r->Ok_0 <= final(circuit)@.len(),
        r is Ok ==> old(circuit)@.len() <= final(circuit)@.len(),
        built(r, final(circuit)@, distinct_built(old(circuit)@, input_id as int, schema@)),
{
    proof {
        reveal(distinct_built);
    }
    let mut group_by: Vec<usize> = Vec::new();
    let mut i: usize = 0;
    while i < schema.columns.len()
        invariant
            i <= schema.columns.len(),
            group_by@.len() == i,
            forall|j: int| 0 <= j < i ==> #[trigger] group_by@[j] == j,
        decreases schema.columns.len() - i,
    {
        group_by.push(i);
        i += 1;
    }
    let functions: Vec<AggregateFunction> = Vec::new();
    let filters: Vec<Option<FilterPredicate>> = Vec::new();
    proof {
        assert(positions(group_by@) =~= Seq::new(schema@.len(), |i: int| i));
        assert(function_views(functions@) =~= Seq::<AggregateFunctionView>::empty());
        assert(filter_views(filters@) =~= Seq::<Option<FilterView>>::empty());
    }
    let operator_id: i64 = circuit.next_id;
    circuit.add_node(
        DbspOperator::Distinct { schema: schema.clone() },
        one_input(input_id),
        Executable::Aggregate {
            operator_id,
            group_by,
            functions,
            input_names: column_names(schema),
            filters,
        },
    )
}

} // verus!
