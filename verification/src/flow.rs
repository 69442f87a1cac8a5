//! What the nodes of a circuit let through.
//!
//! A node is read as the rows that come out of it, given the rows that come out of the nodes below.
//! That tells of the nodes that a join or a filter is compiled to what they are for.

use vstd::prelude::*;

use crate::antijoin::EmitMode;
use crate::ast::BinaryOperator;
use crate::builder::filter_node_built;
use crate::circuit::{AggregateFunctionView, ExecutableView, JoinType, NodeView};
use crate::decorrelate::{conjoined, conjuncts};
use crate::expr::{refs_of, side_of, some_resolves, CompiledView, FilterSide};
use crate::filter::{filter_names, filter_of, filter_position, is_connective, FilterView};
use crate::join::{
    equality_key, equality_keys, join_built, join_conditions, join_nodes_built, left_positions,
    push_all, push_one, right_positions, Pushed,
};
use crate::logical::{ColumnInfoView, ColumnRefView, LogicalExprView, LogicalJoinType};
use crate::plan::column_position;
use crate::sense::{tree_value, Sense};
use crate::seqs::{first_where, lemma_first_where, lemma_is_first_where, lemma_none_where};
use crate::value::Datum;

verus! {

/// Some rows.
pub type Rows = spec_fn(Seq<Datum>) -> bool;

/// How values are tested: whether a comparison is true of two values, and whether two values of join
/// keys meet.
pub struct Tests {
    pub compare: spec_fn(BinaryOperator, Datum, Datum) -> bool,
    pub meet: spec_fn(Datum, Datum) -> bool,
}

/// What an aggregate makes of the values of a group.
pub enum Kind {
    Counting,
    Summing,
    Averaging,
    Least,
    Greatest,
    Listing,
    Concatenating,
}

/// An aggregate: what it makes of which column, of distinct values or of all, with what between them
/// where it concatenates, and of which rows, if not of all.
#[verifier::ext_equal]
pub struct Call {
    pub kind: Kind,
    pub column: Option<int>,
    pub distinct: bool,
    pub separator: Seq<char>,
    pub only: Option<Rows>,
}

/// What a circuit is read from: the rows that come out of the nodes at the bottom and those of the
/// tables, how values are tested, what expressions make of them, and what comes of rows that are
/// grouped by some columns under some aggregates.
pub struct Flow {
    pub source: spec_fn(int) -> Rows,
    pub table: spec_fn(Seq<char>) -> Rows,
    pub tests: Tests,
    pub sense: Sense,
    pub grouped: spec_fn(Rows, Seq<int>, Seq<Call>) -> Rows,
}

// Expressions.

/// The value of a column or a literal on a row.
pub open spec fn operand(e: LogicalExprView, schema: Seq<ColumnInfoView>, row: Seq<Datum>) -> Datum {
    match e {
        LogicalExprView::Column(c) => match filter_position(c, schema) {
            Ok(i) => row[i],
            Err(_) => Datum::Null,
        },
        LogicalExprView::Literal(v) => v,
        _ => Datum::Null,
    }
}

/// Whether an expression is true on a row.
pub open spec fn holds(
    e: LogicalExprView,
    schema: Seq<ColumnInfoView>,
    row: Seq<Datum>,
    t: Tests,
) -> bool
    decreases e,
{
    match e {
        LogicalExprView::BinaryExpr { left, op: BinaryOperator::And, right } => holds(
            *left,
            schema,
            row,
            t,
        ) && holds(*right, schema, row, t),
        LogicalExprView::BinaryExpr { left, op: BinaryOperator::Or, right } => holds(
            *left,
            schema,
            row,
            t,
        ) || holds(*right, schema, row, t),
        LogicalExprView::BinaryExpr { left, op, right } => (t.compare)(
            op,
            operand(*left, schema, row),
            operand(*right, schema, row),
        ),
        LogicalExprView::IsNull { expr, negated } => (operand(*expr, schema, row) is Null)
            != negated,
        _ => false,
    }
}

/// Whether a predicate lets a row pass.
pub open spec fn passes(f: FilterView, row: Seq<Datum>, t: Tests) -> bool
    decreases f,
{
    match f {
        FilterView::Value { op, column, value } => (t.compare)(op, row[column], value),
        FilterView::Columns { op, left, right } => (t.compare)(op, row[left], row[right]),
        FilterView::IsNull { column } => row[column] is Null,
        FilterView::IsNotNull { column } => !(row[column] is Null),
        FilterView::And(a, b) => passes(*a, row, t) && passes(*b, row, t),
        FilterView::Or(a, b) => passes(*a, row, t) || passes(*b, row, t),
    }
}

/// A predicate lets pass exactly the rows on which the expression is true that it was compiled from.
pub proof fn law_a_predicate_passes_where_its_expression_holds(
    e: LogicalExprView,
    schema: Seq<ColumnInfoView>,
    row: Seq<Datum>,
    t: Tests,
)
    requires
        filter_of(e, schema) is Ok,
    ensures
        passes(filter_of(e, schema)->Ok_0, row, t) == holds(e, schema, row, t),
    decreases e,
{
    if let LogicalExprView::BinaryExpr { left, op, right } = e {
        if is_connective(op) {
            assert(filter_of(*left, schema) is Ok && filter_of(*right, schema) is Ok);
            law_a_predicate_passes_where_its_expression_holds(*left, schema, row, t);
            law_a_predicate_passes_where_its_expression_holds(*right, schema, row, t);
            if op == BinaryOperator::And {
                assert(filter_of(e, schema)->Ok_0 == FilterView::And(
                    Box::new(filter_of(*left, schema)->Ok_0),
                    Box::new(filter_of(*right, schema)->Ok_0),
                ));
            } else {
                assert(filter_of(e, schema)->Ok_0 == FilterView::Or(
                    Box::new(filter_of(*left, schema)->Ok_0),
                    Box::new(filter_of(*right, schema)->Ok_0),
                ));
            }
        }
    }
}

// Nodes.

/// The rows that pass a predicate.
pub open spec fn filtered(rows: Rows, f: FilterView, t: Tests) -> Rows {
    |row: Seq<Datum>| rows(row) && passes(f, row, t)
}

/// Whether the keys of a left and a right row meet, one for one.
pub open spec fn keys_meet(
    l: Seq<Datum>,
    r: Seq<Datum>,
    left_keys: Seq<int>,
    right_keys: Seq<int>,
    t: Tests,
) -> bool {
    forall|k: int|
        0 <= k < left_keys.len() ==> (t.meet)(l[#[trigger] left_keys[k]], r[right_keys[k]])
}

/// The pairs of a left and a right row whose keys meet.
pub open spec fn paired(
    left: Rows,
    right: Rows,
    left_keys: Seq<int>,
    right_keys: Seq<int>,
    t: Tests,
) -> Rows {
    |row: Seq<Datum>|
        exists|l: Seq<Datum>, r: Seq<Datum>| #[trigger]
            left(l) && #[trigger] right(r) && keys_meet(l, r, left_keys, right_keys, t) && row == l
                + r
}

/// The left rows whose keys no right row meets, padded with NULLs.
pub open spec fn unpaired(
    left: Rows,
    right: Rows,
    left_keys: Seq<int>,
    right_keys: Seq<int>,
    padding: nat,
    t: Tests,
) -> Rows {
    |row: Seq<Datum>|
        exists|l: Seq<Datum>|
            {
                &&& #[trigger] left(l)
                &&& row == l + Seq::new(padding, |i: int| Datum::Null)
                &&& forall|r: Seq<Datum>| #[trigger]
                    right(r) ==> !keys_meet(l, r, left_keys, right_keys, t)
            }
}

/// The rows of either of two.
pub open spec fn either(a: Rows, b: Rows) -> Rows {
    |row: Seq<Datum>| a(row) || b(row)
}

/// The rows that some compiled expressions make of rows.
pub open spec fn projected(rows: Rows, exprs: Seq<CompiledView>, s: Sense) -> Rows {
    |row: Seq<Datum>|
        exists|r: Seq<Datum>| #[trigger]
            rows(r) && row == Seq::new(exprs.len(), |i: int| tree_value(exprs[i].tree, r, s))
}

/// Some rows that are listed.
pub open spec fn listed(list: Seq<Seq<Datum>>) -> Rows {
    |row: Seq<Datum>| list.contains(row)
}

/// What a function of a circuit is as an aggregate.
pub open spec fn call_read(
    f: AggregateFunctionView,
    filter: Option<FilterView>,
    t: Tests,
) -> Call {
    let only = match filter {
        Some(p) => Some(|row: Seq<Datum>| passes(p, row, t)),
        None => None,
    };
    let (kind, column, distinct, separator) = match f {
        AggregateFunctionView::Count => (Kind::Counting, None, false, Seq::empty()),
        AggregateFunctionView::CountDistinct(c) => (Kind::Counting, Some(c), true, Seq::empty()),
        AggregateFunctionView::Sum(c) => (Kind::Summing, Some(c), false, Seq::empty()),
        AggregateFunctionView::SumDistinct(c) => (Kind::Summing, Some(c), true, Seq::empty()),
        AggregateFunctionView::Avg(c) => (Kind::Averaging, Some(c), false, Seq::empty()),
        AggregateFunctionView::AvgDistinct(c) => (Kind::Averaging, Some(c), true, Seq::empty()),
        AggregateFunctionView::Min(c) => (Kind::Least, Some(c), false, Seq::empty()),
        AggregateFunctionView::Max(c) => (Kind::Greatest, Some(c), false, Seq::empty()),
        AggregateFunctionView::JsonGroupArray(c) => (Kind::Listing, Some(c), false, Seq::empty()),
        AggregateFunctionView::JsonGroupArrayDistinct(c) => (
            Kind::Listing,
            Some(c),
            true,
            Seq::empty(),
        ),
        AggregateFunctionView::GroupConcat { col, separator } => (
            Kind::Concatenating,
            Some(col),
            false,
            separator,
        ),
        AggregateFunctionView::GroupConcatDistinct { col, separator } => (
            Kind::Concatenating,
            Some(col),
            true,
            separator,
        ),
    };
    Call { kind, column, distinct, separator, only }
}

/// What the functions of a node are as aggregates, each with its own filter.
pub open spec fn calls_read(
    functions: Seq<AggregateFunctionView>,
    filters: Seq<Option<FilterView>>,
    t: Tests,
) -> Seq<Call> {
    Seq::new(functions.len(), |i: int| call_read(functions[i], filters[i], t))
}

/// The rows that come out of a node. The first `base` nodes are those at the bottom, and so is any
/// node that is no operator of a single pass over its inputs.
pub open spec fn rows_out(nodes: Seq<NodeView>, base: int, id: int, flow: Flow) -> Rows
    decreases id,
{
    if id <= base || id > nodes.len() {
        (flow.source)(id)
    } else {
        let node = nodes[id - 1];
        let a = node.inputs[0] as int;
        let b = node.inputs[1] as int;
        match node.executable {
            ExecutableView::Filter(f) => if 0 <= a < id {
                filtered(rows_out(nodes, base, a, flow), f, flow.tests)
            } else {
                (flow.source)(id)
            },
            ExecutableView::Join { join_type: JoinType::Inner, left_keys, right_keys, .. } => if 0
                <= a < id && 0 <= b < id {
                paired(
                    rows_out(nodes, base, a, flow),
                    rows_out(nodes, base, b, flow),
                    left_keys,
                    right_keys,
                    flow.tests,
                )
            } else {
                (flow.source)(id)
            },
            ExecutableView::Antijoin {
                left_keys,
                right_keys,
                mode: EmitMode::NullPad { right_column_count },
                ..
            } => if 0 <= a < id && 0 <= b < id {
                unpaired(
                    rows_out(nodes, base, a, flow),
                    rows_out(nodes, base, b, flow),
                    left_keys,
                    right_keys,
                    right_column_count as nat,
                    flow.tests,
                )
            } else {
                (flow.source)(id)
            },
            ExecutableView::Merge { .. } => if 0 <= a < id && 0 <= b < id {
                either(rows_out(nodes, base, a, flow), rows_out(nodes, base, b, flow))
            } else {
                (flow.source)(id)
            },
            ExecutableView::Project { exprs, .. } => if 0 <= a < id {
                projected(rows_out(nodes, base, a, flow), exprs, flow.sense)
            } else {
                (flow.source)(id)
            },
            ExecutableView::Aggregate { group_by, functions, filters, .. } => if 0 <= a < id {
                (flow.grouped)(
                    rows_out(nodes, base, a, flow),
                    group_by,
                    calls_read(functions, filters, flow.tests),
                )
            } else {
                (flow.source)(id)
            },
            ExecutableView::Input { name } => (flow.table)(name),
            ExecutableView::Literal { rows } => listed(rows),
            _ => (flow.source)(id),
        }
    }
}

/// Nodes that are added later change nothing for those that are there.
pub proof fn lemma_rows_out_stay(a: Seq<NodeView>, b: Seq<NodeView>, base: int, id: int, flow: Flow)
    requires
        id <= a.len() <= b.len(),
        forall|k: int| 0 <= k < a.len() ==> #[trigger] a[k] == b[k],
        0 <= base,
    ensures
        rows_out(a, base, id, flow) == rows_out(b, base, id, flow),
    decreases id,
{
    if id > base {
        let node = a[id - 1];
        assert(b[id - 1] == node);
        let x = node.inputs[0] as int;
        let y = node.inputs[1] as int;
        if 0 <= x < id {
            lemma_rows_out_stay(a, b, base, x, flow);
        }
        if 0 <= y < id {
            lemma_rows_out_stay(a, b, base, y, flow);
        }
    }
}

// Where columns are found.

pub proof fn lemma_found_in_front<A>(a: Seq<A>, b: Seq<A>, p: spec_fn(A) -> bool)
    ensures
        first_where(a, p) is Some ==> first_where(a + b, p) == first_where(a, p),
        first_where(a, p) is None ==> first_where(a + b, p) == (match first_where(b, p) {
            Some(i) => Some(a.len() + i),
            None => None,
        }),
{
    lemma_first_where(a, p);
    lemma_first_where(b, p);
    let both = a + b;
    match first_where(a, p) {
        Some(i) => {
            assert(both[i] == a[i]);
            assert forall|j: int| 0 <= j < i implies !p(#[trigger] both[j]) by {
                assert(both[j] == a[j]);
            }
            lemma_is_first_where(both, p, i);
        },
        None => {
            match first_where(b, p) {
                Some(i) => {
                    assert(both[a.len() + i] == b[i]);
                    assert forall|j: int| 0 <= j < a.len() + i implies !p(#[trigger] both[j]) by {
                        if j < a.len() {
                            assert(both[j] == a[j]);
                        } else {
                            assert(both[j] == b[j - a.len()]);
                        }
                    }
                    lemma_is_first_where(both, p, a.len() + i);
                },
                None => {
                    assert forall|j: int| 0 <= j < both.len() implies !p(#[trigger] both[j]) by {
                        if j < a.len() {
                            assert(both[j] == a[j]);
                        } else {
                            assert(both[j] == b[j - a.len()]);
                        }
                    }
                    lemma_none_where(both, p);
                },
            }
        },
    }
}

/// Whether every column of an expression that a filter finds in a schema is one that a plan finds
/// there. A filter takes no notice of the database that a column may be qualified with.
pub open spec fn found_alike(e: LogicalExprView, schema: Seq<ColumnInfoView>) -> bool
    decreases e,
{
    match e {
        LogicalExprView::Column(c) => filter_position(c, schema) is Ok ==> column_position(
            schema,
            c.name,
            c.table,
        ) is Some,
        LogicalExprView::BinaryExpr { left, right, .. } => found_alike(*left, schema)
            && found_alike(*right, schema),
        LogicalExprView::IsNull { expr, .. } => found_alike(*expr, schema),
        _ => true,
    }
}

proof fn lemma_operand_in_front(
    e: LogicalExprView,
    left: Seq<ColumnInfoView>,
    right: Seq<ColumnInfoView>,
    l: Seq<Datum>,
    r: Seq<Datum>,
)
    requires
        e matches LogicalExprView::Column(c) ==> filter_position(c, left) is Ok,
        l.len() == left.len(),
    ensures
        operand(e, left + right, l + r) == operand(e, left, l),
{
    if let LogicalExprView::Column(c) = e {
        lemma_found_in_front(left, right, filter_names(c));
        lemma_first_where(left, filter_names(c));
    }
}

/// A condition whose columns are all on the left holds of a pair where it holds of the left row.
proof fn lemma_holds_in_front(
    e: LogicalExprView,
    left: Seq<ColumnInfoView>,
    right: Seq<ColumnInfoView>,
    l: Seq<Datum>,
    r: Seq<Datum>,
    t: Tests,
)
    requires
        filter_of(e, left) is Ok,
        l.len() == left.len(),
    ensures
        holds(e, left + right, l + r, t) == holds(e, left, l, t),
    decreases e,
{
    match e {
        LogicalExprView::BinaryExpr { left: a, op, right: b } => {
            if is_connective(op) {
                lemma_holds_in_front(*a, left, right, l, r, t);
                lemma_holds_in_front(*b, left, right, l, r, t);
            } else {
                lemma_operand_in_front(*a, left, right, l, r);
                lemma_operand_in_front(*b, left, right, l, r);
            }
        },
        LogicalExprView::IsNull { expr, .. } => {
            lemma_operand_in_front(*expr, left, right, l, r);
        },
        _ => {},
    }
}

proof fn lemma_some_resolves_concat(
    a: Seq<ColumnRefView>,
    b: Seq<ColumnRefView>,
    schema: Seq<ColumnInfoView>,
)
    requires
        !some_resolves(a + b, schema),
    ensures
        !some_resolves(a, schema),
        !some_resolves(b, schema),
{
    let both = a + b;
    assert forall|i: int| 0 <= i < a.len() implies column_position(
        schema,
        (#[trigger] a[i]).name,
        a[i].table,
    ) is None by {
        assert(both[i] == a[i]);
    }
    assert forall|i: int| 0 <= i < b.len() implies column_position(
        schema,
        (#[trigger] b[i]).name,
        b[i].table,
    ) is None by {
        assert(both[a.len() + i] == b[i]);
    }
}

proof fn lemma_operand_behind(
    e: LogicalExprView,
    left: Seq<ColumnInfoView>,
    right: Seq<ColumnInfoView>,
    l: Seq<Datum>,
    r: Seq<Datum>,
)
    requires
        e matches LogicalExprView::Column(c) ==> filter_position(c, right) is Ok,
        found_alike(e, left),
        !some_resolves(refs_of(e), left),
        l.len() == left.len(),
        r.len() == right.len(),
    ensures
        operand(e, left + right, l + r) == operand(e, right, r),
{
    if let LogicalExprView::Column(c) = e {
        assert(refs_of(e)[0] == c);
        assert(column_position(left, c.name, c.table) is None);
        lemma_found_in_front(left, right, filter_names(c));
        lemma_first_where(right, filter_names(c));
    }
}

/// A condition whose columns are all on the right holds of a pair where it holds of the right row.
proof fn lemma_holds_behind(
    e: LogicalExprView,
    left: Seq<ColumnInfoView>,
    right: Seq<ColumnInfoView>,
    l: Seq<Datum>,
    r: Seq<Datum>,
    t: Tests,
)
    requires
        filter_of(e, right) is Ok,
        found_alike(e, left),
        !some_resolves(refs_of(e), left),
        l.len() == left.len(),
        r.len() == right.len(),
    ensures
        holds(e, left + right, l + r, t) == holds(e, right, r, t),
    decreases e,
{
    match e {
        LogicalExprView::BinaryExpr { left: a, op, right: b } => {
            lemma_some_resolves_concat(refs_of(*a), refs_of(*b), left);
            if is_connective(op) {
                lemma_holds_behind(*a, left, right, l, r, t);
                lemma_holds_behind(*b, left, right, l, r, t);
            } else {
                lemma_operand_behind(*a, left, right, l, r);
                lemma_operand_behind(*b, left, right, l, r);
            }
        },
        LogicalExprView::IsNull { expr, .. } => {
            lemma_operand_behind(*expr, left, right, l, r);
        },
        _ => {},
    }
}

// The conditions of a join.

/// Whether the conditions that read a side of a join hold on a row.
spec fn side_holds(
    list: Seq<LogicalExprView>,
    side: FilterSide,
    left: Seq<ColumnInfoView>,
    right: Seq<ColumnInfoView>,
    schema: Seq<ColumnInfoView>,
    row: Seq<Datum>,
    t: Tests,
) -> bool {
    forall|k: int|
        0 <= k < list.len() && side_of(#[trigger] list[k], left, right) == side ==> holds(
            list[k],
            schema,
            row,
            t,
        )
}

/// Whether some conditions hold on a row.
spec fn all_hold(
    list: Seq<LogicalExprView>,
    schema: Seq<ColumnInfoView>,
    row: Seq<Datum>,
    t: Tests,
) -> bool {
    forall|k: int| 0 <= k < list.len() ==> holds(#[trigger] list[k], schema, row, t)
}

proof fn lemma_all_hold_concat(
    a: Seq<LogicalExprView>,
    b: Seq<LogicalExprView>,
    schema: Seq<ColumnInfoView>,
    row: Seq<Datum>,
    t: Tests,
)
    ensures
        all_hold(a + b, schema, row, t) == (all_hold(a, schema, row, t) && all_hold(
            b,
            schema,
            row,
            t,
        )),
{
    let both = a + b;
    if all_hold(both, schema, row, t) {
        assert forall|k: int| 0 <= k < a.len() implies holds(#[trigger] a[k], schema, row, t) by {
            assert(both[k] == a[k]);
        }
        assert forall|k: int| 0 <= k < b.len() implies holds(#[trigger] b[k], schema, row, t) by {
            assert(both[a.len() + k] == b[k]);
        }
    }
    if all_hold(a, schema, row, t) && all_hold(b, schema, row, t) {
        assert forall|k: int| 0 <= k < both.len() implies holds(
            #[trigger] both[k],
            schema,
            row,
            t,
        ) by {
            if k < a.len() {
                assert(both[k] == a[k]);
            } else {
                assert(both[k] == b[k - a.len()]);
            }
        }
    }
}

/// An expression holds exactly if its conjuncts do.
proof fn lemma_conjuncts_hold(
    e: LogicalExprView,
    schema: Seq<ColumnInfoView>,
    row: Seq<Datum>,
    t: Tests,
)
    ensures
        all_hold(conjuncts(e), schema, row, t) == holds(e, schema, row, t),
    decreases e,
{
    let list = conjuncts(e);
    match e {
        LogicalExprView::BinaryExpr { left, op: BinaryOperator::And, right } => {
            lemma_conjuncts_hold(*left, schema, row, t);
            lemma_conjuncts_hold(*right, schema, row, t);
            lemma_all_hold_concat(conjuncts(*left), conjuncts(*right), schema, row, t);
        },
        _ => {
            assert(list[0] == e);
        },
    }
}

/// The conjunction of some conditions holds exactly if each of them does.
proof fn lemma_conjoined_holds(
    parts: Seq<LogicalExprView>,
    schema: Seq<ColumnInfoView>,
    row: Seq<Datum>,
    t: Tests,
)
    requires
        parts.len() > 0,
    ensures
        conjoined(parts) matches Some(e) && holds(e, schema, row, t) == all_hold(
            parts,
            schema,
            row,
            t,
        ),
    decreases parts.len(),
{
    if parts.len() == 1 {
        assert(all_hold(parts, schema, row, t) == holds(parts[0], schema, row, t));
    } else {
        let front = parts.drop_last();
        lemma_conjoined_holds(front, schema, row, t);
        let one = seq![parts.last()];
        lemma_all_hold_concat(front, one, schema, row, t);
        assert(front + one =~= parts);
        assert(one[0] == parts.last());
    }
}

proof fn lemma_conjuncts_found_alike(e: LogicalExprView, schema: Seq<ColumnInfoView>)
    requires
        found_alike(e, schema),
    ensures
        forall|k: int|
            0 <= k < conjuncts(e).len() ==> found_alike(#[trigger] conjuncts(e)[k], schema),
    decreases e,
{
    match e {
        LogicalExprView::BinaryExpr { left, op: BinaryOperator::And, right } => {
            lemma_conjuncts_found_alike(*left, schema);
            lemma_conjuncts_found_alike(*right, schema);
            let a = conjuncts(*left);
            let b = conjuncts(*right);
            assert forall|k: int| 0 <= k < conjuncts(e).len() implies found_alike(
                #[trigger] conjuncts(e)[k],
                schema,
            ) by {
                if k < a.len() {
                    assert(conjuncts(e)[k] == a[k]);
                } else {
                    assert(conjuncts(e)[k] == b[k - a.len()]);
                }
            }
        },
        _ => {},
    }
}

proof fn lemma_side_holds_push(
    list: Seq<LogicalExprView>,
    side: FilterSide,
    left: Seq<ColumnInfoView>,
    right: Seq<ColumnInfoView>,
    schema: Seq<ColumnInfoView>,
    row: Seq<Datum>,
    t: Tests,
)
    requires
        list.len() > 0,
    ensures
        side_holds(list, side, left, right, schema, row, t) == (side_holds(
            list.drop_last(),
            side,
            left,
            right,
            schema,
            row,
            t,
        ) && (side_of(list.last(), left, right) == side ==> holds(list.last(), schema, row, t))),
{
    let front = list.drop_last();
    let whole = side_holds(list, side, left, right, schema, row, t);
    let parts = side_holds(front, side, left, right, schema, row, t) && (side_of(
        list.last(),
        left,
        right,
    ) == side ==> holds(list.last(), schema, row, t));
    if whole {
        assert forall|k: int|
            0 <= k < front.len() && side_of(#[trigger] front[k], left, right) == side implies holds(
            front[k],
            schema,
            row,
            t,
        ) by {
            assert(list[k] == front[k]);
        }
        assert(list[list.len() - 1] == list.last());
    }
    if parts {
        assert forall|k: int|
            0 <= k < list.len() && side_of(#[trigger] list[k], left, right) == side implies holds(
            list[k],
            schema,
            row,
            t,
        ) by {
            if k < front.len() {
                assert(list[k] == front[k]);
            }
        }
    }
}

/// Conditions that have been placed are tested: those on one side by the nodes of that side, and the
/// others are those that stay for above.
#[verifier::rlimit(40)]
proof fn lemma_conditions_placed(
    start: Pushed,
    list: Seq<LogicalExprView>,
    left: Seq<ColumnInfoView>,
    right: Seq<ColumnInfoView>,
    outer: bool,
    flow: Flow,
)
    requires
        push_all(start, list, left, right, outer) is Ok,
        1 <= start.left <= start.nodes.len(),
        1 <= start.right <= start.nodes.len(),
        start.cross.len() == 0,
    ensures
        ({
            let p = push_all(start, list, left, right, outer)->Ok_0;
            let base = start.nodes.len() as int;
            &&& base <= p.nodes.len()
            &&& forall|k: int| 0 <= k < base ==> #[trigger] start.nodes[k] == p.nodes[k]
            &&& 1 <= p.left <= p.nodes.len()
            &&& 1 <= p.right <= p.nodes.len()
            &&& forall|row: Seq<Datum>| #[trigger]
                rows_out(p.nodes, base, p.left, flow)(row) == ((flow.source)(start.left)(row)
                    && side_holds(
                    list,
                    FilterSide::LeftOnly,
                    left,
                    right,
                    left,
                    row,
                    flow.tests,
                ))
            &&& forall|row: Seq<Datum>| #[trigger]
                rows_out(p.nodes, base, p.right, flow)(row) == ((flow.source)(start.right)(row)
                    && side_holds(
                    list,
                    FilterSide::RightOnly,
                    left,
                    right,
                    right,
                    row,
                    flow.tests,
                ))
            &&& forall|schema: Seq<ColumnInfoView>, row: Seq<Datum>| #[trigger]
                all_hold(p.cross, schema, row, flow.tests) == side_holds(
                    list,
                    FilterSide::Cross,
                    left,
                    right,
                    schema,
                    row,
                    flow.tests,
                )
            &&& outer ==> p.cross.len() == 0
            &&& forall|k: int|
                0 <= k < list.len() ==> match side_of(#[trigger] list[k], left, right) {
                    FilterSide::LeftOnly => filter_of(list[k], left) is Ok,
                    FilterSide::RightOnly => filter_of(list[k], right) is Ok,
                    FilterSide::Cross => true,
                }
        }),
    decreases list.len(),
{
    let base = start.nodes.len() as int;
    let t = flow.tests;
    if list.len() > 0 {
        let front = list.drop_last();
        let e = list.last();
        lemma_conditions_placed(start, front, left, right, outer, flow);
        let q = push_all(start, front, left, right, outer)->Ok_0;
        let p = push_all(start, list, left, right, outer)->Ok_0;
        assert(push_one(q, e, left, right, outer) == Ok::<Pushed, crate::error::ErrorView>(p));
        let side = side_of(e, left, right);
        lemma_rows_out_stay(q.nodes, p.nodes, base, q.left, flow);
        lemma_rows_out_stay(q.nodes, p.nodes, base, q.right, flow);
        assert forall|k: int| 0 <= k < base implies #[trigger] start.nodes[k] == p.nodes[k] by {
            assert(start.nodes[k] == q.nodes[k]);
        }
        assert forall|row: Seq<Datum>| #[trigger]
            rows_out(p.nodes, base, p.left, flow)(row) == ((flow.source)(start.left)(row)
                && side_holds(list, FilterSide::LeftOnly, left, right, left, row, t)) by {
            lemma_side_holds_push(list, FilterSide::LeftOnly, left, right, left, row, t);
            assert(rows_out(q.nodes, base, q.left, flow)(row) == ((flow.source)(start.left)(row)
                && side_holds(front, FilterSide::LeftOnly, left, right, left, row, t)));
            if side == FilterSide::LeftOnly {
                law_a_predicate_passes_where_its_expression_holds(e, left, row, t);
            }
        }
        assert forall|row: Seq<Datum>| #[trigger]
            rows_out(p.nodes, base, p.right, flow)(row) == ((flow.source)(start.right)(row)
                && side_holds(list, FilterSide::RightOnly, left, right, right, row, t)) by {
            lemma_side_holds_push(list, FilterSide::RightOnly, left, right, right, row, t);
            assert(rows_out(q.nodes, base, q.right, flow)(row) == ((flow.source)(start.right)(row)
                && side_holds(front, FilterSide::RightOnly, left, right, right, row, t)));
            if side == FilterSide::RightOnly {
                law_a_predicate_passes_where_its_expression_holds(e, right, row, t);
            }
        }
        assert forall|schema: Seq<ColumnInfoView>, row: Seq<Datum>| #[trigger]
            all_hold(p.cross, schema, row, t) == side_holds(
                list,
                FilterSide::Cross,
                left,
                right,
                schema,
                row,
                t,
            ) by {
            lemma_side_holds_push(list, FilterSide::Cross, left, right, schema, row, t);
            assert(all_hold(q.cross, schema, row, t) == side_holds(
                front,
                FilterSide::Cross,
                left,
                right,
                schema,
                row,
                t,
            ));
            if side == FilterSide::Cross {
                let one = seq![e];
                lemma_all_hold_concat(q.cross, one, schema, row, t);
                assert(q.cross + one =~= p.cross);
                assert(one[0] == e);
                assert(all_hold(one, schema, row, t) == holds(e, schema, row, t));
            }
        }
        assert forall|k: int| 0 <= k < list.len() implies match side_of(
            #[trigger] list[k],
            left,
            right,
        ) {
            FilterSide::LeftOnly => filter_of(list[k], left) is Ok,
            FilterSide::RightOnly => filter_of(list[k], right) is Ok,
            FilterSide::Cross => true,
        } by {
            if k < front.len() {
                assert(front[k] == list[k]);
            }
        }
    } else {
        let p = start;
        assert(push_all(start, list, left, right, outer) == Ok::<
            Pushed,
            crate::error::ErrorView,
        >(start));
    }
}

proof fn lemma_equality_keys(
    on: Seq<(LogicalExprView, LogicalExprView)>,
    left: Seq<ColumnInfoView>,
    right: Seq<ColumnInfoView>,
)
    requires
        equality_keys(on, left, right) is Ok,
    ensures
        ({
            let keys = equality_keys(on, left, right)->Ok_0;
            &&& keys.len() == on.len()
            &&& forall|k: int|
                0 <= k < on.len() ==> #[trigger] equality_key(on[k], left, right) is Ok && keys[k]
                    == equality_key(on[k], left, right)->Ok_0
        }),
    decreases on.len(),
{
    if on.len() > 0 {
        let front = on.drop_last();
        lemma_equality_keys(front, left, right);
        let keys = equality_keys(on, left, right)->Ok_0;
        let some = equality_keys(front, left, right)->Ok_0;
        assert forall|k: int| 0 <= k < on.len() implies #[trigger] equality_key(
            on[k],
            left,
            right,
        ) is Ok && keys[k] == equality_key(on[k], left, right)->Ok_0 by {
            if k < front.len() {
                assert(front[k] == on[k]);
                assert(equality_key(front[k], left, right) is Ok);
                assert(keys[k] == some[k]);
            }
        }
    }
}

/// Whether the two columns of each equality of a join meet in a pair of rows: the first found on the
/// left and the second on the right, or where they are not found so, the other way round.
pub open spec fn equalities_meet(
    on: Seq<(LogicalExprView, LogicalExprView)>,
    left: Seq<ColumnInfoView>,
    right: Seq<ColumnInfoView>,
    l: Seq<Datum>,
    r: Seq<Datum>,
    t: Tests,
) -> bool {
    forall|k: int|
        0 <= k < on.len() ==> match #[trigger] on[k] {
            (LogicalExprView::Column(a), LogicalExprView::Column(b)) => match (
                column_position(left, a.name, a.table),
                column_position(right, b.name, b.table),
            ) {
                (Some(i), Some(j)) => (t.meet)(l[i], r[j]),
                _ => match (
                    column_position(left, b.name, b.table),
                    column_position(right, a.name, a.table),
                ) {
                    (Some(i), Some(j)) => (t.meet)(l[i], r[j]),
                    _ => false,
                },
            },
            _ => false,
        }
}

proof fn lemma_equalities(
    on: Seq<(LogicalExprView, LogicalExprView)>,
    left: Seq<ColumnInfoView>,
    right: Seq<ColumnInfoView>,
    l: Seq<Datum>,
    r: Seq<Datum>,
    t: Tests,
)
    requires
        equality_keys(on, left, right) is Ok,
    ensures
        ({
            let keys = equality_keys(on, left, right)->Ok_0;
            keys_meet(l, r, left_positions(keys), right_positions(keys), t) == equalities_meet(
                on,
                left,
                right,
                l,
                r,
                t,
            )
        }),
{
    lemma_equality_keys(on, left, right);
    let keys = equality_keys(on, left, right)->Ok_0;
    let lk = left_positions(keys);
    let rk = right_positions(keys);
    if keys_meet(l, r, lk, rk, t) {
        assert forall|k: int| 0 <= k < on.len() implies match #[trigger] on[k] {
            (LogicalExprView::Column(a), LogicalExprView::Column(b)) => match (
                column_position(left, a.name, a.table),
                column_position(right, b.name, b.table),
            ) {
                (Some(i), Some(j)) => (t.meet)(l[i], r[j]),
                _ => match (
                    column_position(left, b.name, b.table),
                    column_position(right, a.name, a.table),
                ) {
                    (Some(i), Some(j)) => (t.meet)(l[i], r[j]),
                    _ => false,
                },
            },
            _ => false,
        } by {
            assert(equality_key(on[k], left, right) is Ok);
            assert((t.meet)(l[lk[k]], r[rk[k]]));
        }
    }
    if equalities_meet(on, left, right, l, r, t) {
        assert forall|k: int| 0 <= k < lk.len() implies (t.meet)(
            l[#[trigger] lk[k]],
            r[rk[k]],
        ) by {
            assert(equality_key(on[k], left, right) is Ok);
            let pair = on[k];
        }
    }
}

/// A pair of rows meets the conditions of a join exactly if it meets those on the left, those on the
/// right, and those on both.
proof fn lemma_conditions_on_a_pair(
    list: Seq<LogicalExprView>,
    left: Seq<ColumnInfoView>,
    right: Seq<ColumnInfoView>,
    l: Seq<Datum>,
    r: Seq<Datum>,
    t: Tests,
)
    requires
        l.len() == left.len(),
        r.len() == right.len(),
        forall|k: int| 0 <= k < list.len() ==> found_alike(#[trigger] list[k], left),
        forall|k: int|
            0 <= k < list.len() ==> match side_of(#[trigger] list[k], left, right) {
                FilterSide::LeftOnly => filter_of(list[k], left) is Ok,
                FilterSide::RightOnly => filter_of(list[k], right) is Ok,
                FilterSide::Cross => true,
            },
    ensures
        all_hold(list, left + right, l + r, t) == (side_holds(
            list,
            FilterSide::LeftOnly,
            left,
            right,
            left,
            l,
            t,
        ) && side_holds(list, FilterSide::RightOnly, left, right, right, r, t) && side_holds(
            list,
            FilterSide::Cross,
            left,
            right,
            left + right,
            l + r,
            t,
        )),
{
    assert forall|k: int| 0 <= k < list.len() implies match side_of(
        #[trigger] list[k],
        left,
        right,
    ) {
        FilterSide::LeftOnly => holds(list[k], left + right, l + r, t) == holds(
            list[k],
            left,
            l,
            t,
        ),
        FilterSide::RightOnly => holds(list[k], left + right, l + r, t) == holds(
            list[k],
            right,
            r,
            t,
        ),
        FilterSide::Cross => true,
    } by {
        match side_of(list[k], left, right) {
            FilterSide::LeftOnly => {
                lemma_holds_in_front(list[k], left, right, l, r, t);
            },
            FilterSide::RightOnly => {
                lemma_holds_behind(list[k], left, right, l, r, t);
            },
            FilterSide::Cross => {},
        }
    }
    let whole = all_hold(list, left + right, l + r, t);
    if whole {
        assert(side_holds(list, FilterSide::LeftOnly, left, right, left, l, t));
        assert(side_holds(list, FilterSide::RightOnly, left, right, right, r, t));
    }
    if side_holds(list, FilterSide::LeftOnly, left, right, left, l, t) && side_holds(
        list,
        FilterSide::RightOnly,
        left,
        right,
        right,
        r,
        t,
    ) && side_holds(list, FilterSide::Cross, left, right, left + right, l + r, t) {
        assert forall|k: int| 0 <= k < list.len() implies holds(
            #[trigger] list[k],
            left + right,
            l + r,
            t,
        ) by {
            let side = side_of(list[k], left, right);
        }
    }
}

/// What the nodes of a join let through: the pairs of a left and a right row that meet in every
/// equality and on which the whole condition holds, wherever its parts are tested; and in a LEFT JOIN
/// besides these the left rows for which there is no such right row, padded with NULLs.
///
/// The rows have the columns of their schemas, and where a filter finds a column of the condition on
/// the left, so does the plan.
#[verifier::rlimit(60)]
pub proof fn law_a_join_lets_through_the_pairs_that_meet_its_condition(
    nodes: Seq<NodeView>,
    left: int,
    right: int,
    join_type: LogicalJoinType,
    on: Seq<(LogicalExprView, LogicalExprView)>,
    filter: Option<LogicalExprView>,
    left_schema: Seq<ColumnInfoView>,
    right_schema: Seq<ColumnInfoView>,
    flow: Flow,
    row: Seq<Datum>,
)
    requires
        1 <= left <= nodes.len(),
        1 <= right <= nodes.len(),
        join_type == LogicalJoinType::Inner || join_type == LogicalJoinType::Left,
        right_schema.len() <= usize::MAX,
        filter matches Some(e) ==> found_alike(e, left_schema),
        forall|l: Seq<Datum>| #[trigger] (flow.source)(left)(l) ==> l.len() == left_schema.len(),
        forall|r: Seq<Datum>| #[trigger] (flow.source)(right)(r) ==> r.len() == right_schema.len(),
        join_built(
            nodes,
            left,
            right,
            join_type,
            on,
            filter,
            left_schema,
            right_schema,
            left_schema + right_schema,
        ) is Ok,
    ensures
        ({
            let b = join_built(
                nodes,
                left,
                right,
                join_type,
                on,
                filter,
                left_schema,
                right_schema,
                left_schema + right_schema,
            )->Ok_0;
            let meets = |l: Seq<Datum>, r: Seq<Datum>|
                equalities_meet(on, left_schema, right_schema, l, r, flow.tests) && (
                filter matches Some(e) ==> holds(
                    e,
                    left_schema + right_schema,
                    l + r,
                    flow.tests,
                ));
            rows_out(b.0, nodes.len() as int, b.1, flow)(row) <==> {
                ||| exists|l: Seq<Datum>, r: Seq<Datum>| #[trigger]
                    (flow.source)(left)(l) && #[trigger] (flow.source)(right)(r) && meets(l, r)
                        && row == l + r
                ||| join_type == LogicalJoinType::Left && exists|l: Seq<Datum>|
                    {
                        &&& #[trigger] (flow.source)(left)(l)
                        &&& row == l + Seq::new(right_schema.len(), |i: int| Datum::Null)
                        &&& forall|r: Seq<Datum>| #[trigger]
                            (flow.source)(right)(r) ==> !meets(l, r)
                    }
            }
        }),
{
    reveal(join_built);
    let schema = left_schema + right_schema;
    let outer = join_type == LogicalJoinType::Left;
    let start = Pushed { nodes, left, right, cross: Seq::empty() };
    let list = join_conditions(filter);
    let t = flow.tests;
    let base = nodes.len() as int;
    lemma_conditions_placed(start, list, left_schema, right_schema, outer, flow);
    let p = push_all(start, list, left_schema, right_schema, outer)->Ok_0;
    let keys = equality_keys(on, left_schema, right_schema)->Ok_0;
    let lk = left_positions(keys);
    let rk = right_positions(keys);
    let j = join_nodes_built(
        p.nodes,
        p.left,
        p.right,
        join_type,
        keys,
        left_schema,
        right_schema,
        schema,
    )->Ok_0;
    let b = join_built(
        nodes,
        left,
        right,
        join_type,
        on,
        filter,
        left_schema,
        right_schema,
        schema,
    )->Ok_0;
    let ls = (flow.source)(left);
    let rs = (flow.source)(right);
    let below_left = rows_out(p.nodes, base, p.left, flow);
    let below_right = rows_out(p.nodes, base, p.right, flow);
    let condition = |l: Seq<Datum>, r: Seq<Datum>|
        filter matches Some(e) ==> holds(e, schema, l + r, t);
    let meets = |l: Seq<Datum>, r: Seq<Datum>|
        equalities_meet(on, left_schema, right_schema, l, r, t) && condition(l, r);
    if let Some(e) = filter {
        lemma_conjuncts_found_alike(e, left_schema);
    }
    // What a pair has to meet, by where it is tested.
    assert forall|l: Seq<Datum>, r: Seq<Datum>| #[trigger] ls(l) && #[trigger] rs(r) implies (
    below_left(l) && below_right(r) && keys_meet(l, r, lk, rk, t) && all_hold(
        p.cross,
        schema,
        l + r,
        t,
    )) == meets(l, r) by {
        lemma_equalities(on, left_schema, right_schema, l, r, t);
        lemma_conditions_on_a_pair(list, left_schema, right_schema, l, r, t);
        assert(all_hold(p.cross, schema, l + r, t) == side_holds(
            list,
            FilterSide::Cross,
            left_schema,
            right_schema,
            schema,
            l + r,
            t,
        ));
        if let Some(e) = filter {
            lemma_conjuncts_hold(e, schema, l + r, t);
        }
        assert(all_hold(list, schema, l + r, t) == condition(l, r));
    }
    lemma_rows_out_stay(p.nodes, j.0, base, p.left, flow);
    lemma_rows_out_stay(p.nodes, j.0, base, p.right, flow);
    lemma_rows_out_stay(j.0, b.0, base, j.1, flow);
    let joined = rows_out(j.0, base, j.1, flow);
    if !outer {
        assert(joined == paired(below_left, below_right, lk, rk, t));
        assert(rows_out(b.0, base, b.1, flow)(row) == (joined(row) && all_hold(
            p.cross,
            schema,
            row,
            t,
        ))) by {
            if p.cross.len() > 0 {
                lemma_conjoined_holds(p.cross, schema, row, t);
                law_a_predicate_passes_where_its_expression_holds(
                    conjoined(p.cross)->Some_0,
                    schema,
                    row,
                    t,
                );
            }
        }
        if joined(row) && all_hold(p.cross, schema, row, t) {
            let (l, r) = choose|l: Seq<Datum>, r: Seq<Datum>| #[trigger]
                below_left(l) && #[trigger] below_right(r) && keys_meet(l, r, lk, rk, t) && row == l
                    + r;
            assert(ls(l) && rs(r));
            assert(meets(l, r));
        }
        if exists|l: Seq<Datum>, r: Seq<Datum>| #[trigger]
            ls(l) && #[trigger] rs(r) && meets(l, r) && row == l + r {
            let (l, r) = choose|l: Seq<Datum>, r: Seq<Datum>| #[trigger]
                ls(l) && #[trigger] rs(r) && meets(l, r) && row == l + r;
            assert(below_left(l) && below_right(r));
        }
    } else {
        // Nothing is tested on the left, and nothing above.
        assert(below_left =~= ls) by {
            assert forall|l: Seq<Datum>| #[trigger] below_left(l) == ls(l) by {
                lemma_no_left_conditions(start, list, left_schema, right_schema, l, t);
            }
        }
        assert(all_hold(p.cross, schema, row, t));
        assert(b == j);
        let inner = p.nodes.len() as int + 1;
        let anti = inner + 1;
        assert(j.1 == inner + 2);
        let one = p.nodes.push(j.0[inner - 1]);
        let two = one.push(j.0[anti - 1]);
        assert(j.0[inner - 1].inputs[0] as int == p.left);
        assert(j.0[inner - 1].inputs[1] as int == p.right);
        assert(j.0[anti - 1].inputs[0] as int == p.left);
        assert(j.0[anti - 1].inputs[1] as int == p.right);
        assert(j.0[j.1 - 1].inputs[0] as int == inner);
        assert(j.0[j.1 - 1].inputs[1] as int == anti);
        assert(rows_out(j.0, base, inner, flow) == paired(below_left, below_right, lk, rk, t));
        assert(rows_out(j.0, base, anti, flow) == unpaired(
            below_left,
            below_right,
            lk,
            rk,
            right_schema.len(),
            t,
        ));
        assert(joined == either(
            paired(below_left, below_right, lk, rk, t),
            unpaired(below_left, below_right, lk, rk, right_schema.len(), t),
        ));
        assert forall|l: Seq<Datum>, r: Seq<Datum>| #[trigger] ls(l) && #[trigger] rs(r) implies (
        below_right(r) && keys_meet(l, r, lk, rk, t)) == meets(l, r) by {
            assert(all_hold(p.cross, schema, l + r, t));
        }
        assert(forall|r: Seq<Datum>| #[trigger] below_right(r) ==> rs(r));
        let first = exists|l: Seq<Datum>, r: Seq<Datum>| #[trigger]
            ls(l) && #[trigger] rs(r) && meets(l, r) && row == l + r;
        let second = exists|l: Seq<Datum>|
            {
                &&& #[trigger] ls(l)
                &&& row == l + Seq::new(right_schema.len(), |i: int| Datum::Null)
                &&& forall|r: Seq<Datum>| #[trigger] rs(r) ==> !meets(l, r)
            };
        let matched = paired(below_left, below_right, lk, rk, t)(row);
        let unmatched = unpaired(below_left, below_right, lk, rk, right_schema.len(), t)(row);
        if matched {
            let (l, r) = choose|l: Seq<Datum>, r: Seq<Datum>| #[trigger]
                below_left(l) && #[trigger] below_right(r) && keys_meet(l, r, lk, rk, t) && row == l
                    + r;
            assert(ls(l) && rs(r) && meets(l, r));
            assert(first);
        }
        if first {
            let (l, r) = choose|l: Seq<Datum>, r: Seq<Datum>| #[trigger]
                ls(l) && #[trigger] rs(r) && meets(l, r) && row == l + r;
            assert(below_left(l) && below_right(r) && keys_meet(l, r, lk, rk, t));
            assert(matched);
        }
        if unmatched {
            let l = choose|l: Seq<Datum>|
                {
                    &&& #[trigger] below_left(l)
                    &&& row == l + Seq::new(right_schema.len(), |i: int| Datum::Null)
                    &&& forall|r: Seq<Datum>| #[trigger]
                        below_right(r) ==> !keys_meet(l, r, lk, rk, t)
                };
            assert(ls(l));
            assert forall|r: Seq<Datum>| #[trigger] rs(r) implies !meets(l, r) by {
                if meets(l, r) {
                    assert(below_right(r));
                }
            }
            assert(second);
        }
        if second {
            let l = choose|l: Seq<Datum>|
                {
                    &&& #[trigger] ls(l)
                    &&& row == l + Seq::new(right_schema.len(), |i: int| Datum::Null)
                    &&& forall|r: Seq<Datum>| #[trigger] rs(r) ==> !meets(l, r)
                };
            assert(below_left(l));
            assert forall|r: Seq<Datum>| #[trigger] below_right(r) implies !keys_meet(
                l,
                r,
                lk,
                rk,
                t,
            ) by {
                assert(rs(r));
            }
            assert(unmatched);
        }
    }
}

/// A LEFT JOIN has no condition that reads the left side alone.
proof fn lemma_no_left_conditions(
    start: Pushed,
    list: Seq<LogicalExprView>,
    left: Seq<ColumnInfoView>,
    right: Seq<ColumnInfoView>,
    row: Seq<Datum>,
    t: Tests,
)
    requires
        push_all(start, list, left, right, true) is Ok,
    ensures
        side_holds(list, FilterSide::LeftOnly, left, right, left, row, t),
    decreases list.len(),
{
    if list.len() > 0 {
        lemma_no_left_conditions(start, list.drop_last(), left, right, row, t);
        lemma_side_holds_push(list, FilterSide::LeftOnly, left, right, left, row, t);
    }
}

/// Where a conjunct of the condition of a join reads both sides, the node on top is a filter whose
/// input is the join, and no row passes it on which that conjunct does not hold.
pub proof fn law_conditions_on_both_sides_are_tested_above_the_join(
    nodes: Seq<NodeView>,
    left: int,
    right: int,
    join_type: LogicalJoinType,
    on: Seq<(LogicalExprView, LogicalExprView)>,
    condition: LogicalExprView,
    left_schema: Seq<ColumnInfoView>,
    right_schema: Seq<ColumnInfoView>,
    schema: Seq<ColumnInfoView>,
    k: int,
    row: Seq<Datum>,
    t: Tests,
)
    requires
        1 <= left <= nodes.len(),
        1 <= right <= nodes.len(),
        0 <= k < conjuncts(condition).len(),
        some_resolves(refs_of(conjuncts(condition)[k]), left_schema),
        some_resolves(refs_of(conjuncts(condition)[k]), right_schema),
        join_built(
            nodes,
            left,
            right,
            join_type,
            on,
            Some(condition),
            left_schema,
            right_schema,
            schema,
        ) is Ok,
    ensures
        ({
            let b = join_built(
                nodes,
                left,
                right,
                join_type,
                on,
                Some(condition),
                left_schema,
                right_schema,
                schema,
            )->Ok_0;
            let top = b.0[b.1 - 1];
            &&& b.1 == b.0.len()
            &&& top.executable is Filter
            &&& top.inputs == seq![(b.1 - 1) as i64]
            &&& b.0[b.1 - 2].executable is Join
            &&& passes(top.executable->Filter_0, row, t) ==> holds(
                conjuncts(condition)[k],
                schema,
                row,
                t,
            )
        }),
{
    reveal(join_built);
    let outer = join_type == LogicalJoinType::Left;
    let start = Pushed { nodes, left, right, cross: Seq::empty() };
    let list = conjuncts(condition);
    let flow = Flow {
        source: |id: int| |r: Seq<Datum>| true,
        table: |name: Seq<char>| |r: Seq<Datum>| true,
        tests: t,
        sense: arbitrary(),
        grouped: |rows: Rows, by: Seq<int>, calls: Seq<Call>| rows,
    };
    lemma_conditions_placed(start, list, left_schema, right_schema, outer, flow);
    let p = push_all(start, list, left_schema, right_schema, outer)->Ok_0;
    assert(side_of(list[k], left_schema, right_schema) == FilterSide::Cross);
    lemma_cross_stays(start, list, left_schema, right_schema, outer, k);
    lemma_conjoined_holds(p.cross, schema, row, t);
    let all = conjoined(p.cross)->Some_0;
    law_a_predicate_passes_where_its_expression_holds(all, schema, row, t);
    assert(flow.tests == t);
    assert(all_hold(p.cross, schema, row, flow.tests) == side_holds(
        list,
        FilterSide::Cross,
        left_schema,
        right_schema,
        schema,
        row,
        flow.tests,
    ));
}

/// A condition that reads both sides stays for above the join, which is then no LEFT JOIN.
proof fn lemma_cross_stays(
    start: Pushed,
    list: Seq<LogicalExprView>,
    left: Seq<ColumnInfoView>,
    right: Seq<ColumnInfoView>,
    outer: bool,
    k: int,
)
    requires
        push_all(start, list, left, right, outer) is Ok,
        0 <= k < list.len(),
        side_of(list[k], left, right) == FilterSide::Cross,
    ensures
        !outer,
        push_all(start, list, left, right, outer)->Ok_0.cross.len() > 0,
    decreases list.len(),
{
    let front = list.drop_last();
    if k < front.len() {
        assert(front[k] == list[k]);
        lemma_cross_stays(start, front, left, right, outer, k);
    }
}

} // verus!
