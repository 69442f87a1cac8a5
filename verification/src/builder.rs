//! Adding projections and filters to a circuit.
//!
//! What is added is given by spec functions from the nodes that are already there to the nodes
//! that are there afterwards and the number of the node on top. The executable functions build
//! exactly that.

use vstd::prelude::*;

use crate::ast::{text_view, Expr};
use crate::circuit::{
    alias_views, too_many_nodes, DbspCircuit, DbspOperator, Executable, ExecutableView, NodeView,
    OperatorView, MAX_NODES,
};
use crate::error::{ErrorView, LimboError};
use crate::expr::{
    compile_expr, compile_expression, compile_exprs, compiled_of, compiled_views, dbsp_of,
    dbsp_views, passthrough, CompiledExpression, CompiledView, DbspExpr, DbspExprView,
};
use crate::filter::{
    compile_filter_predicate, extract_expression_from_predicate, extracted, filter_of,
    needs_projection, predicate_needs_projection, replace_complex_with_temp, replaced,
};
use crate::logical::{
    lemma_lexpr_views, lexpr_views, ColumnInfo, ColumnInfoView, LogicalExpr, LogicalExprView,
    LogicalSchema, Type,
};
use crate::text::{copy_texts, texts};

verus! {

/// What adding to a circuit comes to: the nodes afterwards and the number of the node that was
/// asked for, or an error.
pub type Built = Result<(Seq<NodeView>, int), ErrorView>;

/// The nodes with one more.
pub open spec fn added(nodes: Seq<NodeView>, node: NodeView) -> Built {
    if nodes.len() < MAX_NODES {
        Ok((nodes.push(node), nodes.len() as int + 1))
    } else {
        Err(too_many_nodes())
    }
}

/// Whether a call has built what it should have.
pub open spec fn built(r: Result<i64, LimboError>, after: Seq<NodeView>, want: Built) -> bool {
    match want {
        Ok(w) => r matches Ok(id) && id == w.1 && after == w.0,
        Err(e) => r matches Err(err) && err@ == e,
    }
}

/// What building leaves alone.
pub open spec fn same_frame(a: DbspCircuit, b: DbspCircuit) -> bool {
    &&& a.root == b.root
    &&& a.output_schema == b.output_schema
    &&& a.main_data_root == b.main_data_root
    &&& a.internal_state_root == b.internal_state_root
    &&& a.internal_state_index_root == b.internal_state_index_root
    &&& a.order_by == b.order_by
    &&& a.limit == b.limit
}

/// The names of the columns of a schema.
pub open spec fn schema_names(schema: Seq<ColumnInfoView>) -> Seq<Seq<char>> {
    schema.map_values(|c: ColumnInfoView| c.name)
}

/// Lists the names of the columns of a schema.
pub fn column_names(schema: &LogicalSchema) -> (r: Vec<String>)
    ensures
        texts(r@) == schema_names(schema@),
        r@.len() == schema.columns@.len(),
{
    let mut out: Vec<String> = Vec::new();
    let mut i: usize = 0;
    while i < schema.columns.len()
        invariant
            i <= schema.columns.len(),
            out@.len() == i,
            forall|j: int| 0 <= j < i ==> (#[trigger] out@[j])@ == schema.columns@[j].name@,
        decreases schema.columns.len() - i,
    {
        out.push(schema.columns[i].name.clone());
        i += 1;
    }
    assert(texts(out@) =~= schema_names(schema@));
    out
}

/// The list of one input.
pub fn one_input(id: i64) -> (r: Vec<i64>)
    ensures
        r@ == seq![id],
{
    let mut v: Vec<i64> = Vec::new();
    v.push(id);
    assert(v@ =~= seq![id]);
    v
}

/// The list of two inputs.
pub fn two_inputs(a: i64, b: i64) -> (r: Vec<i64>)
    ensures
        r@ == seq![a, b],
{
    let mut v: Vec<i64> = Vec::new();
    v.push(a);
    v.push(b);
    assert(v@ =~= seq![a, b]);
    v
}

// Projection.

/// The compiled forms of some expressions with their aliases, or the first error.
pub open spec fn compiled_list(list: Seq<LogicalExprView>, schema: Seq<ColumnInfoView>) -> Result<
    Seq<(CompiledView, Option<Seq<char>>)>,
    Seq<char>,
>
    decreases list.len(),
{
    if list.len() == 0 {
        Ok(Seq::empty())
    } else {
        match (compiled_list(list.drop_last(), schema), compiled_of(list.last(), schema)) {
            (Err(m), _) => Err(m),
            (_, Err(m)) => Err(m),
            (Ok(front), Ok(last)) => Ok(front.push(last)),
        }
    }
}

/// The node of a projection over a node.
#[verifier::opaque]
pub open spec fn projection_built(
    nodes: Seq<NodeView>,
    input: int,
    in_schema: Seq<ColumnInfoView>,
    exprs: Seq<LogicalExprView>,
    schema: Seq<ColumnInfoView>,
) -> Built {
    match compiled_list(exprs, in_schema) {
        Err(m) => Err(ErrorView::ParseError(m)),
        Ok(list) => added(
            nodes,
            NodeView {
                operator: OperatorView::Projection {
                    exprs: exprs.map_values(|e: LogicalExprView| dbsp_of(e)),
                    schema,
                },
                inputs: seq![input as i64],
                executable: ExecutableView::Project {
                    exprs: list.map_values(|c: (CompiledView, Option<Seq<char>>)| c.0),
                    aliases: list.map_values(|c: (CompiledView, Option<Seq<char>>)| c.1),
                    input_names: schema_names(in_schema),
                    output_names: schema_names(schema),
                },
            },
        ),
    }
}

proof fn lemma_compiled_list_prefix(
    list: Seq<LogicalExprView>,
    schema: Seq<ColumnInfoView>,
    n: int,
)
    requires
        0 <= n <= list.len(),
        compiled_list(list.take(n), schema) is Err,
    ensures
        compiled_list(list, schema) == compiled_list(list.take(n), schema),
    decreases list.len() - n,
{
    if n == list.len() {
        assert(list.take(n) =~= list);
    } else {
        assert(list.take(n + 1).drop_last() =~= list.take(n));
        lemma_compiled_list_prefix(list, schema, n + 1);
    }
}

/// Adds a projection on top of a node.
pub fn compile_projection(
    circuit: &mut DbspCircuit,
    input_id: i64,
    input_schema: &LogicalSchema,
    exprs: &Vec<LogicalExpr>,
    schema: &LogicalSchema,
) -> (r: Result<i64, LimboError>)
    requires
        old(circuit).wf(),
        1 <= input_id <= old(circuit)@.len(),
    ensures
        final(circuit).wf(),
        same_frame(*final(circuit), *old(circuit)),
        r is Ok ==> 1 <= r->Ok_0 <= final(circuit)@.len(),
        r is Ok ==> old(circuit)@.len() <= final(circuit)@.len(),
        built(
            r,
            final(circuit)@,
            projection_built(
                old(circuit)@,
                input_id as int,
                input_schema@,
                lexpr_views(exprs@),
                schema@,
            ),
        ),
{
    proof {
        reveal(projection_built);
    }
    let ghost views = lexpr_views(exprs@);
    let ghost s = input_schema@;
    let mut compiled: Vec<CompiledExpression> = Vec::new();
    let mut aliases: Vec<Option<String>> = Vec::new();
    let ghost mut list: Seq<(CompiledView, Option<Seq<char>>)> = Seq::empty();
    let mut i: usize = 0;
    proof {
        lemma_lexpr_views(exprs@);
        assert(views.take(0) =~= Seq::<LogicalExprView>::empty());
    }
    while i < exprs.len()
        invariant
            i <= exprs.len(),
            views == lexpr_views(exprs@),
            views.len() == exprs@.len(),
            s == input_schema@,
            *circuit == *old(circuit),
            circuit.wf(),
            compiled_list(views.take(i as int), s) == Ok::<
                Seq<(CompiledView, Option<Seq<char>>)>,
                Seq<char>,
            >(list),
            list.len() == i,
            compiled@.len() == i,
            aliases@.len() == i,
            forall|j: int|
                0 <= j < i ==> (#[trigger] list[j]).0 == compiled@[j]@ && list[j].1 == text_view(
                    aliases@[j],
                ),
        decreases exprs.len() - i,
    {
        proof {
            lemma_lexpr_views(exprs@);
            assert(views.take(i + 1).drop_last() =~= views.take(i as int));
            assert(views.take(i + 1).last() == exprs@[i as int].view());
        }
        match compile_expression(&exprs[i], input_schema) {
            Err(e) => {
                proof {
                    lemma_compiled_list_prefix(views, s, i + 1);
                    reveal(projection_built);
                }
                return Err(e);
            },
            Ok(pair) => {
                let (c, alias) = pair;
                proof {
                    list = list.push((c@, text_view(alias)));
                }
                compiled.push(c);
                aliases.push(alias);
            },
        }
        i += 1;
    }
    assert(views.take(i as int) =~= views);
    let input_names = column_names(input_schema);
    let output_names = column_names(schema);
    let operator = DbspOperator::Projection {
        exprs: compile_exprs(exprs),
        schema: schema.clone(),
    };
    proof {
        assert(compiled_views(compiled@) =~= list.map_values(
            |c: (CompiledView, Option<Seq<char>>)| c.0,
        ));
        assert(alias_views(aliases@) =~= list.map_values(
            |c: (CompiledView, Option<Seq<char>>)| c.1,
        ));
    }
    let executable = Executable::Project { exprs: compiled, aliases, input_names, output_names };
    circuit.add_node(operator, one_input(input_id), executable)
}

// Filter.

/// A filter node over a node.
pub open spec fn filter_node_built(
    nodes: Seq<NodeView>,
    input: int,
    predicate: LogicalExprView,
    schema: Seq<ColumnInfoView>,
) -> Built {
    match filter_of(predicate, schema) {
        Err(m) => Err(ErrorView::ParseError(m)),
        Ok(f) => added(
            nodes,
            NodeView {
                operator: OperatorView::Filter { predicate: dbsp_of(predicate) },
                inputs: seq![input as i64],
                executable: ExecutableView::Filter(f),
            },
        ),
    }
}

/// Adds a filter node on top of a node.
pub fn add_filter_node(
    circuit: &mut DbspCircuit,
    input_id: i64,
    predicate: &LogicalExpr,
    schema: &LogicalSchema,
) -> (r: Result<i64, LimboError>)
    requires
        old(circuit).wf(),
        1 <= input_id <= old(circuit)@.len(),
    ensures
        final(circuit).wf(),
        same_frame(*final(circuit), *old(circuit)),
        r is Ok ==> 1 <= r->Ok_0 <= final(circuit)@.len(),
        r is Ok ==> old(circuit)@.len() <= final(circuit)@.len(),
        built(
            r,
            final(circuit)@,
            filter_node_built(old(circuit)@, input_id as int, predicate.view(), schema@),
        ),
{
    let dbsp_predicate = compile_expr(predicate);
    match compile_filter_predicate(predicate, schema) {
        Err(e) => Err(e),
        Ok(f) => circuit.add_node(
            DbspOperator::Filter { predicate: dbsp_predicate },
            one_input(input_id),
            Executable::Filter(f),
        ),
    }
}

/// The column that holds what a filter has to have computed.
pub open spec fn temp_name() -> Seq<char> {
    "__temp_filter_expr"@
}

pub open spec fn temp_column() -> ColumnInfoView {
    ColumnInfoView {
        name: temp_name(),
        ty: Type::Integer,
        database: None,
        table: None,
        table_alias: None,
    }
}

/// The columns of a schema by their names.
pub open spec fn name_exprs(schema: Seq<ColumnInfoView>) -> Seq<DbspExprView> {
    schema.map_values(|c: ColumnInfoView| DbspExprView::Column(c.name))
}

/// All columns of a row of `width` columns, as they are.
pub open spec fn passthroughs(width: nat) -> Seq<CompiledView> {
    Seq::new(width, |i: int| passthrough(i, width as int))
}

pub open spec fn no_aliases(width: nat) -> Seq<Option<Seq<char>>> {
    Seq::new(width, |i: int| None::<Seq<char>>)
}

/// A projection that keeps all columns and appends a computed one.
pub open spec fn widening(
    input: int,
    schema: Seq<ColumnInfoView>,
    computed: CompiledView,
) -> NodeView {
    NodeView {
        operator: OperatorView::Projection {
            exprs: name_exprs(schema),
            schema: schema.push(temp_column()),
        },
        inputs: seq![input as i64],
        executable: ExecutableView::Project {
            exprs: passthroughs(schema.len()).push(computed),
            aliases: no_aliases(schema.len()).push(Some(temp_name())),
            input_names: schema_names(schema),
            output_names: schema_names(schema).push(temp_name()),
        },
    }
}

/// A projection that takes the computed column off again.
pub open spec fn narrowing(input: int, schema: Seq<ColumnInfoView>) -> NodeView {
    NodeView {
        operator: OperatorView::Projection { exprs: name_exprs(schema), schema },
        inputs: seq![input as i64],
        executable: ExecutableView::Project {
            exprs: passthroughs(schema.len()),
            aliases: no_aliases(schema.len()),
            input_names: schema_names(schema).push(temp_name()),
            output_names: schema_names(schema),
        },
    }
}

/// The nodes of a filter over a node: one where the predicate can be tested as it is, else a
/// projection that computes what has to be, the filter, and a projection that drops it.
#[verifier::opaque]
pub open spec fn filter_built(
    nodes: Seq<NodeView>,
    input: int,
    schema: Seq<ColumnInfoView>,
    predicate: LogicalExprView,
) -> Built {
    if !needs_projection(predicate) {
        filter_node_built(nodes, input, predicate, schema)
    } else {
        match compiled_of(extracted(predicate), schema) {
            Err(m) => Err(ErrorView::ParseError(m)),
            Ok(computed) => match added(nodes, widening(input, schema, computed.0)) {
                Err(e) => Err(e),
                Ok(wide) => match filter_node_built(
                    wide.0,
                    wide.1,
                    replaced(predicate, temp_name()),
                    schema.push(temp_column()),
                ) {
                    Err(e) => Err(e),
                    Ok(kept) => added(kept.0, narrowing(kept.1, schema)),
                },
            },
        }
    }
}

fn name_columns(schema: &LogicalSchema) -> (r: Vec<DbspExpr>)
    ensures
        dbsp_views(r@) == name_exprs(schema@),
{
    let mut out: Vec<DbspExpr> = Vec::new();
    let mut i: usize = 0;
    while i < schema.columns.len()
        invariant
            i <= schema.columns.len(),
            out@.len() == i,
            forall|j: int|
                0 <= j < i ==> (#[trigger] out@[j]).view() == DbspExprView::Column(
                    schema.columns@[j].name@,
                ),
        decreases schema.columns.len() - i,
    {
        out.push(DbspExpr::Column(schema.columns[i].name.clone()));
        i += 1;
    }
    assert(dbsp_views(out@) =~= name_exprs(schema@));
    out
}

fn pass_columns(width: usize) -> (r: (Vec<CompiledExpression>, Vec<Option<String>>))
    ensures
        compiled_views(r.0@) == passthroughs(width as nat),
        alias_views(r.1@) == no_aliases(width as nat),
        r.0@.len() == width,
        r.1@.len() == width,
{
    let mut exprs: Vec<CompiledExpression> = Vec::new();
    let mut aliases: Vec<Option<String>> = Vec::new();
    let mut i: usize = 0;
    while i < width
        invariant
            i <= width,
            exprs@.len() == i,
            aliases@.len() == i,
            forall|j: int| 0 <= j < i ==> (#[trigger] exprs@[j])@ == passthrough(j, width as int),
            forall|j: int| 0 <= j < i ==> (#[trigger] aliases@[j]) is None,
        decreases width - i,
    {
        exprs.push(CompiledExpression { tree: Expr::Register(i), input_count: width });
        aliases.push(None);
        i += 1;
    }
    assert(compiled_views(exprs@) =~= passthroughs(width as nat));
    assert(alias_views(aliases@) =~= no_aliases(width as nat));
    (exprs, aliases)
}

/// Adds a filter on top of a node.
pub fn compile_filter(
    circuit: &mut DbspCircuit,
    input_id: i64,
    input_schema: &LogicalSchema,
    predicate: &LogicalExpr,
) -> (r: Result<i64, LimboError>)
    requires
        old(circuit).wf(),
        1 <= input_id <= old(circuit)@.len(),
    ensures
        final(circuit).wf(),
        same_frame(*final(circuit), *old(circuit)),
        r is Ok ==> 1 <= r->Ok_0 <= final(circuit)@.len(),
        r is Ok ==> old(circuit)@.len() <= final(circuit)@.len(),
        built(
            r,
            final(circuit)@,
            filter_built(old(circuit)@, input_id as int, input_schema@, predicate.view()),
        ),
{
    proof {
        reveal(filter_built);
    }
    if !predicate_needs_projection(predicate) {
        return add_filter_node(circuit, input_id, predicate, input_schema);
    }
    let ghost s = input_schema@;
    let width: usize = input_schema.columns.len();
    let computed = extract_expression_from_predicate(predicate);
    let (compiled, _alias) = match compile_expression(&computed, input_schema) {
        Ok(pair) => pair,
        Err(e) => return Err(e),
    };
    let ghost c = compiled@;
    let (mut exprs, mut aliases) = pass_columns(width);
    let ghost exprs0 = exprs@;
    let ghost aliases0 = aliases@;
    exprs.push(compiled);
    aliases.push(Some("__temp_filter_expr".to_owned()));
    let input_names = column_names(input_schema);
    let mut output_names = column_names(input_schema);
    let ghost names0 = output_names@;
    output_names.push("__temp_filter_expr".to_owned());
    let mut wide_schema = input_schema.clone();
    let ghost columns0 = wide_schema.columns@;
    wide_schema.columns.push(
        ColumnInfo {
            name: "__temp_filter_expr".to_owned(),
            ty: Type::Integer,
            database: None,
            table: None,
            table_alias: None,
        },
    );
    proof {
        assert(compiled_views(exprs@) =~= compiled_views(exprs0).push(c));
        assert(alias_views(aliases@) =~= alias_views(aliases0).push(Some(temp_name())));
        assert(texts(output_names@) =~= texts(names0).push(temp_name()));
        assert(wide_schema@ =~= s.push(temp_column()));
    }
    let names_again = copy_texts(&output_names);
    let wide_id = match circuit.add_node(
        DbspOperator::Projection {
            exprs: name_columns(input_schema),
            schema: wide_schema.clone(),
        },
        one_input(input_id),
        Executable::Project { exprs, aliases, input_names, output_names },
    ) {
        Ok(id) => id,
        Err(e) => return Err(e),
    };
    let replaced_predicate = replace_complex_with_temp(predicate, "__temp_filter_expr");
    let filter_id = match add_filter_node(circuit, wide_id, &replaced_predicate, &wide_schema) {
        Ok(id) => id,
        Err(e) => return Err(e),
    };
    let (final_exprs, final_aliases) = pass_columns(width);
    circuit.add_node(
        DbspOperator::Projection {
            exprs: name_columns(input_schema),
            schema: input_schema.clone(),
        },
        one_input(filter_id),
        Executable::Project {
            exprs: final_exprs,
            aliases: final_aliases,
            input_names: names_again,
            output_names: column_names(input_schema),
        },
    )
}

} // verus!
