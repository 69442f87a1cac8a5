//! Circuits as text.
//!
//! A circuit is written from its root down, a node on each line, the nodes that it reads below it
//! and further in. A node that is read twice is written twice.

use vstd::prelude::*;

use crate::circuit::{
    function_views, on_views, AggregateFunction, AggregateFunctionView, DbspCircuit,
    DbspOperator, JoinType, NodeView, OperatorView,
};
use crate::expr::{dbsp_views, DbspExpr, DbspExprView};
use crate::filter::{operator_name, operator_name_str};
use crate::text::{
    decimal, decimal_i64, decimal_int, decimal_u64, decimal_usize, join, joined, quote, quoted,
    texts,
};
use crate::value::{Datum, Numeric, NumericView, Value};

verus! {

/// Some texts in brackets.
pub open spec fn bracketed(parts: Seq<Seq<char>>) -> Seq<char> {
    "["@ + joined(parts, ", "@) + "]"@
}

/// Puts some texts in brackets.
pub fn bracket(parts: &Vec<String>) -> (r: String)
    ensures
        r@ == bracketed(texts(parts@)),
{
    let mut out = "[".to_owned();
    out.append(join(parts, ", ").as_str());
    out.append("]");
    out
}

/// A text between two others.
fn between(before: &str, inside: &str, after: &str) -> (r: String)
    ensures
        r@ == before@ + inside@ + after@,
{
    let mut out = before.to_owned();
    out.append(inside);
    out.append(after);
    out
}

// Expressions.

/// A value as text.
pub open spec fn value_text(v: Datum) -> Seq<char> {
    match v {
        Datum::Null => "Null"@,
        Datum::Numeric(NumericView::Integer(i)) => "Numeric(Integer("@ + decimal_int(i as int)
            + "))"@,
        Datum::Numeric(NumericView::Float(f)) => "Numeric(Float("@ + f.text + "))"@,
        Datum::Text(t) => "Text("@ + quoted(t) + ")"@,
        Datum::Blob(b) => "Blob("@ + bracketed(b.map_values(|x: u8| decimal(x as nat))) + ")"@,
    }
}

fn bytes_text(bytes: &Vec<u8>) -> (r: String)
    ensures
        r@ == bracketed(bytes@.map_values(|x: u8| decimal(x as nat))),
{
    let mut parts: Vec<String> = Vec::new();
    let ghost wanted = bytes@.map_values(|x: u8| decimal(x as nat));
    let mut i: usize = 0;
    while i < bytes.len()
        invariant
            i <= bytes.len(),
            wanted == bytes@.map_values(|x: u8| decimal(x as nat)),
            parts@.len() == i,
            forall|j: int| 0 <= j < i ==> (#[trigger] parts@[j])@ == wanted[j],
        decreases bytes.len() - i,
    {
        parts.push(decimal_u64(bytes[i] as u64));
        i += 1;
    }
    assert(texts(parts@) =~= wanted);
    bracket(&parts)
}

/// Writes a value.
pub fn write_value(v: &Value) -> (r: String)
    ensures
        r@ == value_text(v@),
{
    match v {
        Value::Null => "Null".to_owned(),
        Value::Numeric(Numeric::Integer(i)) => between(
            "Numeric(Integer(",
            decimal_i64(*i).as_str(),
            "))",
        ),
        Value::Numeric(Numeric::Float(f)) => between("Numeric(Float(", f.text.as_str(), "))"),
        Value::Text(t) => between("Text(", quote(t.as_str()).as_str(), ")"),
        Value::Blob(b) => between("Blob(", bytes_text(b).as_str(), ")"),
    }
}

/// An expression of a circuit as text.
pub open spec fn expr_text(e: DbspExprView) -> Seq<char>
    decreases e,
{
    match e {
        DbspExprView::Column(name) => "Column("@ + quoted(name) + ")"@,
        DbspExprView::Literal(v) => "Literal("@ + value_text(v) + ")"@,
        DbspExprView::BinaryExpr { left, op, right } => "BinaryExpr { left: "@ + expr_text(*left)
            + ", op: "@ + operator_name(op) + ", right: "@ + expr_text(*right) + " }"@,
    }
}

fn write_expr(e: &DbspExpr) -> (r: String)
    ensures
        r@ == expr_text(e.view()),
    decreases e,
{
    match e {
        DbspExpr::Column(name) => between("Column(", quote(name.as_str()).as_str(), ")"),
        DbspExpr::Literal(v) => between("Literal(", write_value(v).as_str(), ")"),
        DbspExpr::BinaryExpr { left, op, right } => {
            let mut out = "BinaryExpr { left: ".to_owned();
            out.append(write_expr(left).as_str());
            out.append(", op: ");
            out.append(operator_name_str(*op));
            out.append(", right: ");
            out.append(write_expr(right).as_str());
            out.append(" }");
            out
        },
    }
}

pub open spec fn exprs_text(list: Seq<DbspExprView>) -> Seq<char> {
    bracketed(list.map_values(|e: DbspExprView| expr_text(e)))
}

fn write_exprs(list: &Vec<DbspExpr>) -> (r: String)
    ensures
        r@ == exprs_text(dbsp_views(list@)),
{
    let mut parts: Vec<String> = Vec::new();
    let ghost wanted = dbsp_views(list@).map_values(|e: DbspExprView| expr_text(e));
    let mut i: usize = 0;
    while i < list.len()
        invariant
            i <= list.len(),
            wanted == dbsp_views(list@).map_values(|e: DbspExprView| expr_text(e)),
            parts@.len() == i,
            forall|j: int| 0 <= j < i ==> (#[trigger] parts@[j])@ == wanted[j],
        decreases list.len() - i,
    {
        assert(wanted[i as int] == expr_text(list@[i as int].view()));
        parts.push(write_expr(&list[i]));
        i += 1;
    }
    assert(texts(parts@) =~= wanted);
    bracket(&parts)
}

/// A pair of expressions as text.
pub open spec fn pair_text(p: (DbspExprView, DbspExprView)) -> Seq<char> {
    "("@ + expr_text(p.0) + ", "@ + expr_text(p.1) + ")"@
}

pub open spec fn pairs_text(list: Seq<(DbspExprView, DbspExprView)>) -> Seq<char> {
    bracketed(list.map_values(|p: (DbspExprView, DbspExprView)| pair_text(p)))
}

fn write_pairs(list: &Vec<(DbspExpr, DbspExpr)>) -> (r: String)
    ensures
        r@ == pairs_text(on_views(list@)),
{
    let mut parts: Vec<String> = Vec::new();
    let ghost wanted = on_views(list@).map_values(
        |p: (DbspExprView, DbspExprView)| pair_text(p),
    );
    let mut i: usize = 0;
    while i < list.len()
        invariant
            i <= list.len(),
            wanted == on_views(list@).map_values(
                |p: (DbspExprView, DbspExprView)| pair_text(p),
            ),
            parts@.len() == i,
            forall|j: int| 0 <= j < i ==> (#[trigger] parts@[j])@ == wanted[j],
        decreases list.len() - i,
    {
        assert(wanted[i as int] == pair_text((list@[i as int].0.view(), list@[i as int].1.view())));
        let mut part = "(".to_owned();
        part.append(write_expr(&list[i].0).as_str());
        part.append(", ");
        part.append(write_expr(&list[i].1).as_str());
        part.append(")");
        parts.push(part);
        i += 1;
    }
    assert(texts(parts@) =~= wanted);
    bracket(&parts)
}

/// A function of a column as text.
pub open spec fn of_column(name: Seq<char>, column: int) -> Seq<char> {
    name + "("@ + decimal(column as nat) + ")"@
}

/// A function of a column and a separator as text.
pub open spec fn of_separated(name: Seq<char>, column: int, separator: Seq<char>) -> Seq<char> {
    name + " { col: "@ + decimal(column as nat) + ", separator: "@ + quoted(separator) + " }"@
}

/// An aggregate function as text.
pub open spec fn function_text(f: AggregateFunctionView) -> Seq<char> {
    match f {
        AggregateFunctionView::Count => "Count"@,
        AggregateFunctionView::CountDistinct(c) => of_column("CountDistinct"@, c),
        AggregateFunctionView::Sum(c) => of_column("Sum"@, c),
        AggregateFunctionView::SumDistinct(c) => of_column("SumDistinct"@, c),
        AggregateFunctionView::Avg(c) => of_column("Avg"@, c),
        AggregateFunctionView::AvgDistinct(c) => of_column("AvgDistinct"@, c),
        AggregateFunctionView::Min(c) => of_column("Min"@, c),
        AggregateFunctionView::Max(c) => of_column("Max"@, c),
        AggregateFunctionView::JsonGroupArray(c) => of_column("JsonGroupArray"@, c),
        AggregateFunctionView::JsonGroupArrayDistinct(c) => of_column(
            "JsonGroupArrayDistinct"@,
            c,
        ),
        AggregateFunctionView::GroupConcat { col, separator } => of_separated(
            "GroupConcat"@,
            col,
            separator,
        ),
        AggregateFunctionView::GroupConcatDistinct { col, separator } => of_separated(
            "GroupConcatDistinct"@,
            col,
            separator,
        ),
    }
}

fn write_of_column(name: &str, column: usize) -> (r: String)
    ensures
        r@ == of_column(name@, column as int),
{
    let mut out = name.to_owned();
    out.append("(");
    out.append(decimal_usize(column).as_str());
    out.append(")");
    out
}

fn write_of_separated(name: &str, column: usize, separator: &str) -> (r: String)
    ensures
        r@ == of_separated(name@, column as int, separator@),
{
    let mut out = name.to_owned();
    out.append(" { col: ");
    out.append(decimal_usize(column).as_str());
    out.append(", separator: ");
    out.append(quote(separator).as_str());
    out.append(" }");
    out
}

fn write_function(f: &AggregateFunction) -> (r: String)
    ensures
        r@ == function_text(f@),
{
    match f {
        AggregateFunction::Count => "Count".to_owned(),
        AggregateFunction::CountDistinct(c) => write_of_column("CountDistinct", *c),
        AggregateFunction::Sum(c) => write_of_column("Sum", *c),
        AggregateFunction::SumDistinct(c) => write_of_column("SumDistinct", *c),
        AggregateFunction::Avg(c) => write_of_column("Avg", *c),
        AggregateFunction::AvgDistinct(c) => write_of_column("AvgDistinct", *c),
        AggregateFunction::Min(c) => write_of_column("Min", *c),
        AggregateFunction::Max(c) => write_of_column("Max", *c),
        AggregateFunction::JsonGroupArray(c) => write_of_column("JsonGroupArray", *c),
        AggregateFunction::JsonGroupArrayDistinct(c) => write_of_column(
            "JsonGroupArrayDistinct",
            *c,
        ),
        AggregateFunction::GroupConcat { col, separator } => write_of_separated(
            "GroupConcat",
            *col,
            separator.as_str(),
        ),
        AggregateFunction::GroupConcatDistinct { col, separator } => write_of_separated(
            "GroupConcatDistinct",
            *col,
            separator.as_str(),
        ),
    }
}

pub open spec fn functions_text(list: Seq<AggregateFunctionView>) -> Seq<char> {
    bracketed(list.map_values(|f: AggregateFunctionView| function_text(f)))
}

fn write_functions(list: &Vec<AggregateFunction>) -> (r: String)
    ensures
        r@ == functions_text(function_views(list@)),
{
    let mut parts: Vec<String> = Vec::new();
    let ghost wanted = function_views(list@).map_values(
        |f: AggregateFunctionView| function_text(f),
    );
    let mut i: usize = 0;
    while i < list.len()
        invariant
            i <= list.len(),
            wanted == function_views(list@).map_values(
                |f: AggregateFunctionView| function_text(f),
            ),
            parts@.len() == i,
            forall|j: int| 0 <= j < i ==> (#[trigger] parts@[j])@ == wanted[j],
        decreases list.len() - i,
    {
        assert(wanted[i as int] == function_text(list@[i as int]@));
        parts.push(write_function(&list[i]));
        i += 1;
    }
    assert(texts(parts@) =~= wanted);
    bracket(&parts)
}

// Nodes.

pub open spec fn join_text(t: JoinType) -> Seq<char> {
    match t {
        JoinType::Inner => "Inner"@,
        JoinType::Left => "Left"@,
        JoinType::Right => "Right"@,
        JoinType::Full => "Full"@,
        JoinType::Cross => "Cross"@,
    }
}

fn join_str(t: JoinType) -> (r: &'static str)
    ensures
        r@ == join_text(t),
{
    match t {
        JoinType::Inner => "Inner",
        JoinType::Left => "Left",
        JoinType::Right => "Right",
        JoinType::Full => "Full",
        JoinType::Cross => "Cross",
    }
}

/// The name of an operator.
pub open spec fn operator_kind(o: OperatorView) -> Seq<char> {
    match o {
        OperatorView::Filter { .. } => "Filter"@,
        OperatorView::Projection { .. } => "Projection"@,
        OperatorView::Aggregate { .. } => "Aggregate"@,
        OperatorView::Join { .. } => "Join"@,
        OperatorView::Input { .. } => "Input"@,
        OperatorView::Literal { .. } => "Literal"@,
        OperatorView::Merge { .. } => "Merge"@,
        OperatorView::Antijoin { .. } => "Antijoin"@,
        OperatorView::Distinct { .. } => "Distinct"@,
        OperatorView::Recursive { .. } => "Recursive"@,
    }
}

/// What an operator does, as text.
pub open spec fn operator_details(o: OperatorView) -> Seq<char> {
    match o {
        OperatorView::Filter { predicate } => expr_text(predicate),
        OperatorView::Projection { exprs, .. } => exprs_text(exprs),
        OperatorView::Aggregate { group_exprs, aggr_exprs, .. } => "GROUP BY "@ + exprs_text(
            group_exprs,
        ) + ", AGGR "@ + functions_text(aggr_exprs),
        OperatorView::Join { join_type, on_exprs, .. } => join_text(join_type) + " ON "@
            + pairs_text(on_exprs),
        OperatorView::Input { name, .. } => name,
        OperatorView::Literal { schema } => decimal(schema.len()) + " columns"@,
        OperatorView::Merge { schema } => "UNION/Recursive (schema: "@ + decimal(schema.len())
            + " columns)"@,
        OperatorView::Antijoin { schema, right_column_count } => {
            "LEFT JOIN antijoin half (R cols: "@ + decimal(right_column_count as nat)
                + ", schema: "@ + decimal(schema.len()) + ")"@
        },
        OperatorView::Distinct { schema } => "(schema: "@ + decimal(schema.len()) + " columns)"@,
        OperatorView::Recursive { name, max_iterations, union_all, schema } => name
            + " (max_iter="@ + decimal(max_iterations as nat) + ", mode="@ + (if union_all {
            "UNION ALL"@
        } else {
            "UNION"@
        }) + ", "@ + decimal(schema.len()) + " columns)"@,
    }
}

fn kind_str(o: &DbspOperator) -> (r: &'static str)
    ensures
        r@ == operator_kind(o@),
{
    match o {
        DbspOperator::Filter { .. } => "Filter",
        DbspOperator::Projection { .. } => "Projection",
        DbspOperator::Aggregate { .. } => "Aggregate",
        DbspOperator::Join { .. } => "Join",
        DbspOperator::Input { .. } => "Input",
        DbspOperator::Literal { .. } => "Literal",
        DbspOperator::Merge { .. } => "Merge",
        DbspOperator::Antijoin { .. } => "Antijoin",
        DbspOperator::Distinct { .. } => "Distinct",
        DbspOperator::Recursive { .. } => "Recursive",
    }
}

fn write_details(o: &DbspOperator) -> (r: String)
    ensures
        r@ == operator_details(o@),
{
    match o {
        DbspOperator::Filter { predicate } => write_expr(predicate),
        DbspOperator::Projection { exprs, schema: _ } => write_exprs(exprs),
        DbspOperator::Aggregate { group_exprs, aggr_exprs, schema: _ } => {
            let mut out = between("GROUP BY ", write_exprs(group_exprs).as_str(), ", AGGR ");
            out.append(write_functions(aggr_exprs).as_str());
            out
        },
        DbspOperator::Join { join_type, on_exprs, schema: _ } => between(
            join_str(*join_type),
            " ON ",
            write_pairs(on_exprs).as_str(),
        ),
        DbspOperator::Input { name, schema: _ } => name.clone(),
        DbspOperator::Literal { schema } => {
            let mut out = decimal_usize(schema.columns.len());
            out.append(" columns");
            out
        },
        DbspOperator::Merge { schema } => between(
            "UNION/Recursive (schema: ",
            decimal_usize(schema.columns.len()).as_str(),
            " columns)",
        ),
        DbspOperator::Antijoin { schema, right_column_count } => {
            let mut out = between(
                "LEFT JOIN antijoin half (R cols: ",
                decimal_usize(*right_column_count).as_str(),
                ", schema: ",
            );
            out.append(decimal_usize(schema.columns.len()).as_str());
            out.append(")");
            out
        },
        DbspOperator::Distinct { schema } => between(
            "(schema: ",
            decimal_usize(schema.columns.len()).as_str(),
            " columns)",
        ),
        DbspOperator::Recursive { name, max_iterations, union_all, schema } => {
            let mut out = name.clone();
            out.append(" (max_iter=");
            out.append(decimal_usize(*max_iterations).as_str());
            out.append(", mode=");
            out.append(
                if *union_all {
                    "UNION ALL"
                } else {
                    "UNION"
                },
            );
            out.append(", ");
            out.append(decimal_usize(schema.columns.len()).as_str());
            out.append(" columns)");
            out
        },
    }
}

/// How far in a node is written.
pub open spec fn indent(depth: nat) -> Seq<char>
    decreases depth,
{
    if depth == 0 {
        Seq::empty()
    } else {
        indent((depth - 1) as nat) + "  "@
    }
}

fn write_indent(depth: usize) -> (r: String)
    ensures
        r@ == indent(depth as nat),
{
    let mut out = String::new();
    let mut i: usize = 0;
    assert(out@ =~= Seq::<char>::empty());
    while i < depth
        invariant
            i <= depth,
            out@ == indent(i as nat),
        decreases depth - i,
    {
        out.append("  ");
        i += 1;
    }
    out
}

/// The line of a node.
pub open spec fn node_line(node: NodeView, id: int, depth: nat) -> Seq<char> {
    indent(depth) + operator_kind(node.operator) + "["@ + decimal_int(id) + "]: "@
        + operator_details(node.operator) + "\n"@
}

/// A node and all that it reads.
pub open spec fn node_text(nodes: Seq<NodeView>, id: int, depth: nat) -> Seq<char>
    decreases id, 1nat, 0nat,
{
    if 1 <= id <= nodes.len() {
        node_line(nodes[id - 1], id, depth) + inputs_text(
            nodes,
            id,
            depth,
            nodes[id - 1].inputs.len(),
        )
    } else {
        Seq::empty()
    }
}

/// What the first `n` of the nodes that a node reads look like below it.
pub open spec fn inputs_text(nodes: Seq<NodeView>, id: int, depth: nat, n: nat) -> Seq<char>
    decreases id, 0nat, n,
{
    if n == 0 {
        Seq::empty()
    } else {
        let input = nodes[id - 1].inputs[n - 1] as int;
        inputs_text(nodes, id, depth, (n - 1) as nat) + (if 1 <= input < id {
            node_text(nodes, input, depth + 1)
        } else {
            Seq::empty()
        })
    }
}

impl DbspCircuit {
    /// Writes a node and all that it reads.
    fn fmt_node(&self, node_id: i64, depth: usize) -> (r: String)
        requires
            self.wf(),
            1 <= node_id <= self@.len(),
            depth + node_id <= self@.len(),
        ensures
            r@ == node_text(self@, node_id as int, depth as nat),
        decreases node_id,
    {
        let ghost nodes = self@;
        let node = &self.nodes[(node_id - 1) as usize];
        assert(nodes[node_id - 1] == node@);
        let mut out = write_indent(depth);
        out.append(kind_str(&node.operator));
        out.append("[");
        out.append(decimal_i64(node_id).as_str());
        out.append("]: ");
        out.append(write_details(&node.operator).as_str());
        out.append("\n");
        let ghost line = out@;
        assert(line == node_line(nodes[node_id - 1], node_id as int, depth as nat));
        let mut i: usize = 0;
        assert(line + inputs_text(nodes, node_id as int, depth as nat, 0) =~= line);
        while i < node.inputs.len()
            invariant
                i <= node.inputs.len(),
                self.wf(),
                nodes == self@,
                1 <= node_id <= nodes.len(),
                depth + node_id <= self@.len(),
                nodes[node_id - 1] == node@,
                out@ == line + inputs_text(nodes, node_id as int, depth as nat, i as nat),
            decreases node.inputs.len() - i,
        {
            let input: i64 = node.inputs[i];
            assert(1 <= nodes[node_id - 1].inputs[i as int] <= node_id - 1);
            let ghost before = out@;
            out.append(self.fmt_node(input, depth + 1).as_str());
            proof {
                let below = node_text(nodes, input as int, (depth + 1) as nat);
                assert(out@ == before + below);
                assert(out@ =~= line + (inputs_text(
                    nodes,
                    node_id as int,
                    depth as nat,
                    i as nat,
                ) + below));
            }
            i += 1;
        }
        out
    }

    /// Writes the circuit.
    pub fn describe(&self) -> (r: String)
        requires
            self.wf(),
        ensures
            r@ == "DBSP Circuit:\n"@ + (match self.root {
                Some(root) => node_text(self@, root as int, 0),
                None => Seq::empty(),
            }),
    {
        let mut out = "DBSP Circuit:\n".to_owned();
        match self.root {
            Some(root) => {
                out.append(self.fmt_node(root, 0).as_str());
            },
            None => {
                assert(out@ + Seq::<char>::empty() =~= out@);
            },
        }
        out
    }
}

} // verus!
