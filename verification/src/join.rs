//! Adding joins to a circuit.

use vstd::prelude::*;

use crate::antijoin::{AntijoinOperator, EmitMode};
use crate::builder::{
    add_filter_node, added, built, column_names, filter_node_built, same_frame, schema_names,
    two_inputs, Built,
};
use crate::circuit::{
    on_views, positions, DbspCircuit, DbspOperator, Executable, ExecutableView, JoinType,
    NodeView, OperatorView, UnionMode, UnionModeView,
};
use crate::decorrelate::{conjoin, conjoined, conjuncts, split_conjuncts};
use crate::error::{parse_error, ErrorView, LimboError};
use crate::expr::{
    classify_filter_side, join_columns, join_key, side_of, DbspExpr, DbspExprView, FilterSide,
    JoinKeyView,
};
use crate::logical::{
    lemma_lexpr_views, lemma_pair_views, lexpr_views, pair_views, ColumnInfoView, LogicalExpr,
    LogicalExprView, LogicalJoinType, LogicalSchema,
};
use crate::plan::copy_expr;
use crate::text::{decimal_i64, decimal_int};

verus! {

// Conditions beside the equalities.

/// A join while its conditions are being placed: the nodes, the two sides, and the conditions that
/// read both sides.
pub struct Pushed {
    pub nodes: Seq<NodeView>,
    pub left: int,
    pub right: int,
    pub cross: Seq<LogicalExprView>,
}

/// Places one condition. One that reads a single side goes below the join, on that side; one that
/// reads both stays for above. Below a LEFT JOIN only the right side may be filtered: to drop a
/// left row there would lose it, where it should be shown without a match.
pub open spec fn push_one(
    p: Pushed,
    e: LogicalExprView,
    left: Seq<ColumnInfoView>,
    right: Seq<ColumnInfoView>,
    outer: bool,
) -> Result<Pushed, ErrorView> {
    match side_of(e, left, right) {
        FilterSide::LeftOnly => if outer {
            Err(
                ErrorView::ParseError(
                    "LEFT JOIN with non-equijoin ON-conjuncts referencing only the left side is not yet supported in incremental views"@,
                ),
            )
        } else {
            match filter_node_built(p.nodes, p.left, e, left) {
                Ok(b) => Ok(Pushed { nodes: b.0, left: b.1, right: p.right, cross: p.cross }),
                Err(err) => Err(err),
            }
        },
        FilterSide::RightOnly => match filter_node_built(p.nodes, p.right, e, right) {
            Ok(b) => Ok(Pushed { nodes: b.0, left: p.left, right: b.1, cross: p.cross }),
            Err(err) => Err(err),
        },
        FilterSide::Cross => if outer {
            Err(
                ErrorView::ParseError(
                    "LEFT JOIN with non-equijoin ON-conjuncts spanning both sides is not yet supported in incremental views"@,
                ),
            )
        } else {
            Ok(
                Pushed {
                    nodes: p.nodes,
                    left: p.left,
                    right: p.right,
                    cross: p.cross.push(e),
                },
            )
        },
    }
}

/// Places some conditions, from first to last.
pub open spec fn push_all(
    start: Pushed,
    list: Seq<LogicalExprView>,
    left: Seq<ColumnInfoView>,
    right: Seq<ColumnInfoView>,
    outer: bool,
) -> Result<Pushed, ErrorView>
    decreases list.len(),
{
    if list.len() == 0 {
        Ok(start)
    } else {
        match push_all(start, list.drop_last(), left, right, outer) {
            Err(e) => Err(e),
            Ok(p) => push_one(p, list.last(), left, right, outer),
        }
    }
}

proof fn lemma_push_all_prefix(
    start: Pushed,
    list: Seq<LogicalExprView>,
    left: Seq<ColumnInfoView>,
    right: Seq<ColumnInfoView>,
    outer: bool,
    n: int,
)
    requires
        0 <= n <= list.len(),
        push_all(start, list.take(n), left, right, outer) is Err,
    ensures
        push_all(start, list, left, right, outer) == push_all(
            start,
            list.take(n),
            left,
            right,
            outer,
        ),
    decreases list.len() - n,
{
    if n == list.len() {
        assert(list.take(n) =~= list);
    } else {
        assert(list.take(n + 1).drop_last() =~= list.take(n));
        lemma_push_all_prefix(start, list, left, right, outer, n + 1);
    }
}

/// The conditions that a join has beside its equalities.
pub open spec fn join_conditions(filter: Option<LogicalExprView>) -> Seq<LogicalExprView> {
    match filter {
        Some(e) => conjuncts(e),
        None => Seq::empty(),
    }
}

/// Places the conditions of a join.
fn push_conditions(
    circuit: &mut DbspCircuit,
    left_id: i64,
    right_id: i64,
    conditions: &Vec<LogicalExpr>,
    left_schema: &LogicalSchema,
    right_schema: &LogicalSchema,
    outer: bool,
) -> (r: Result<(i64, i64, Vec<LogicalExpr>), LimboError>)
    requires
        old(circuit).wf(),
        1 <= left_id <= old(circuit)@.len(),
        1 <= right_id <= old(circuit)@.len(),
    ensures
        final(circuit).wf(),
        same_frame(*final(circuit), *old(circuit)),
        match push_all(
            (Pushed {
                nodes: old(circuit)@,
                left: left_id as int,
                right: right_id as int,
                cross: Seq::empty(),
            }),
            lexpr_views(conditions@),
            left_schema@,
            right_schema@,
            outer,
        ) {
            Ok(p) => {
                &&& r matches Ok(t) && t.0 == p.left && t.1 == p.right && lexpr_views(t.2@)
                    == p.cross
                &&& final(circuit)@ == p.nodes
                &&& old(circuit)@.len() <= p.nodes.len()
                &&& 1 <= p.left <= p.nodes.len()
                &&& 1 <= p.right <= p.nodes.len()
            },
            Err(e) => r matches Err(err) && err@ == e,
        },
{
    let ghost start = Pushed {
        nodes: circuit@,
        left: left_id as int,
        right: right_id as int,
        cross: Seq::empty(),
    };
    let ghost views = lexpr_views(conditions@);
    let ghost l = left_schema@;
    let ghost rt = right_schema@;
    let mut left: i64 = left_id;
    let mut right: i64 = right_id;
    let mut cross: Vec<LogicalExpr> = Vec::new();
    let ghost mut p = start;
    let mut i: usize = 0;
    proof {
        lemma_lexpr_views(conditions@);
        lemma_lexpr_views(cross@);
        assert(lexpr_views(cross@) =~= Seq::<LogicalExprView>::empty());
        assert(views.take(0) =~= Seq::<LogicalExprView>::empty());
    }
    while i < conditions.len()
        invariant
            i <= conditions.len(),
            views == lexpr_views(conditions@),
            views.len() == conditions@.len(),
            l == left_schema@,
            rt == right_schema@,
            circuit.wf(),
            same_frame(*circuit, *old(circuit)),
            start == (Pushed {
                nodes: old(circuit)@,
                left: left_id as int,
                right: right_id as int,
                cross: Seq::empty(),
            }),
            push_all(start, views.take(i as int), l, rt, outer) == Ok::<Pushed, ErrorView>(p),
            p.nodes == circuit@,
            old(circuit)@.len() <= circuit@.len(),
            p.left == left,
            p.right == right,
            p.cross == lexpr_views(cross@),
            1 <= left <= circuit@.len(),
            1 <= right <= circuit@.len(),
        decreases conditions.len() - i,
    {
        let condition = &conditions[i];
        proof {
            lemma_lexpr_views(conditions@);
            assert(views.take(i + 1).drop_last() =~= views.take(i as int));
            assert(views.take(i + 1).last() == condition.view());
        }
        let side = classify_filter_side(condition, left_schema, right_schema);
        match side {
            FilterSide::LeftOnly => {
                if outer {
                    proof {
                        lemma_push_all_prefix(start, views, l, rt, outer, i + 1);
                    }
                    return Err(
                        parse_error(
                            "LEFT JOIN with non-equijoin ON-conjuncts referencing only the left side is not yet supported in incremental views",
                        ),
                    );
                }
                match add_filter_node(circuit, left, condition, left_schema) {
                    Ok(id) => {
                        left = id;
                    },
                    Err(e) => {
                        proof {
                            lemma_push_all_prefix(start, views, l, rt, outer, i + 1);
                        }
                        return Err(e);
                    },
                }
            },
            FilterSide::RightOnly => {
                match add_filter_node(circuit, right, condition, right_schema) {
                    Ok(id) => {
                        right = id;
                    },
                    Err(e) => {
                        proof {
                            lemma_push_all_prefix(start, views, l, rt, outer, i + 1);
                        }
                        return Err(e);
                    },
                }
            },
            FilterSide::Cross => {
                if outer {
                    proof {
                        lemma_push_all_prefix(start, views, l, rt, outer, i + 1);
                    }
                    return Err(
                        parse_error(
                            "LEFT JOIN with non-equijoin ON-conjuncts spanning both sides is not yet supported in incremental views",
                        ),
                    );
                }
                let ghost before = cross@;
                cross.push(copy_expr(condition));
                proof {
                    lemma_lexpr_views(before);
                    lemma_lexpr_views(cross@);
                    assert(lexpr_views(cross@) =~= lexpr_views(before).push(condition.view()));
                }
            },
        }
        proof {
            p = push_one(p, condition.view(), l, rt, outer)->Ok_0;
        }
        i += 1;
    }
    assert(views.take(i as int) =~= views);
    Ok((left, right, cross))
}

// Equalities.

/// The sides of an equality of a join.
pub open spec fn equality_key(
    pair: (LogicalExprView, LogicalExprView),
    left: Seq<ColumnInfoView>,
    right: Seq<ColumnInfoView>,
) -> Result<JoinKeyView, Seq<char>> {
    match pair {
        (LogicalExprView::Column(first), LogicalExprView::Column(second)) => join_key(
            first,
            second,
            left,
            right,
        ),
        _ => Err(
            "Only simple column references are supported in join conditions for incremental views"@,
        ),
    }
}

pub open spec fn equality_keys(
    on: Seq<(LogicalExprView, LogicalExprView)>,
    left: Seq<ColumnInfoView>,
    right: Seq<ColumnInfoView>,
) -> Result<Seq<JoinKeyView>, Seq<char>>
    decreases on.len(),
{
    if on.len() == 0 {
        Ok(Seq::empty())
    } else {
        match (equality_keys(on.drop_last(), left, right), equality_key(on.last(), left, right)) {
            (Err(m), _) => Err(m),
            (_, Err(m)) => Err(m),
            (Ok(front), Ok(last)) => Ok(front.push(last)),
        }
    }
}

proof fn lemma_equality_keys_prefix(
    on: Seq<(LogicalExprView, LogicalExprView)>,
    left: Seq<ColumnInfoView>,
    right: Seq<ColumnInfoView>,
    n: int,
)
    requires
        0 <= n <= on.len(),
        equality_keys(on.take(n), left, right) is Err,
    ensures
        equality_keys(on, left, right) == equality_keys(on.take(n), left, right),
    decreases on.len() - n,
{
    if n == on.len() {
        assert(on.take(n) =~= on);
    } else {
        assert(on.take(n + 1).drop_last() =~= on.take(n));
        lemma_equality_keys_prefix(on, left, right, n + 1);
    }
}

pub open spec fn left_positions(keys: Seq<JoinKeyView>) -> Seq<int> {
    keys.map_values(|k: JoinKeyView| k.left_idx)
}

pub open spec fn right_positions(keys: Seq<JoinKeyView>) -> Seq<int> {
    keys.map_values(|k: JoinKeyView| k.right_idx)
}

pub open spec fn key_pairs(keys: Seq<JoinKeyView>) -> Seq<(DbspExprView, DbspExprView)> {
    keys.map_values(
        |k: JoinKeyView|
            (DbspExprView::Column(k.left.name), DbspExprView::Column(k.right.name)),
    )
}

/// The keys of a join, found.
struct JoinKeys {
    left: Vec<usize>,
    right: Vec<usize>,
    exprs: Vec<(DbspExpr, DbspExpr)>,
}

impl JoinKeys {
    spec fn holds(&self, keys: Seq<JoinKeyView>) -> bool {
        &&& positions(self.left@) == left_positions(keys)
        &&& positions(self.right@) == right_positions(keys)
        &&& on_views(self.exprs@) == key_pairs(keys)
    }
}

fn find_keys(
    on: &Vec<(LogicalExpr, LogicalExpr)>,
    left_schema: &LogicalSchema,
    right_schema: &LogicalSchema,
) -> (r: Result<JoinKeys, LimboError>)
    ensures
        match equality_keys(pair_views(on@), left_schema@, right_schema@) {
            Ok(keys) => r matches Ok(k) && k.holds(keys),
            Err(m) => r matches Err(e) && e@ == ErrorView::ParseError(m),
        },
{
    let ghost views = pair_views(on@);
    let ghost l = left_schema@;
    let ghost rt = right_schema@;
    let mut left: Vec<usize> = Vec::new();
    let mut right: Vec<usize> = Vec::new();
    let mut exprs: Vec<(DbspExpr, DbspExpr)> = Vec::new();
    let ghost mut keys: Seq<JoinKeyView> = Seq::empty();
    let mut i: usize = 0;
    proof {
        lemma_pair_views(on@);
        assert(views.take(0) =~= Seq::<(LogicalExprView, LogicalExprView)>::empty());
    }
    while i < on.len()
        invariant
            i <= on.len(),
            views == pair_views(on@),
            views.len() == on@.len(),
            l == left_schema@,
            rt == right_schema@,
            equality_keys(views.take(i as int), l, rt) == Ok::<Seq<JoinKeyView>, Seq<char>>(keys),
            keys.len() == i,
            left@.len() == i,
            right@.len() == i,
            exprs@.len() == i,
            forall|j: int|
                0 <= j < i ==> {
                    &&& (#[trigger] keys[j]).left_idx == left@[j]
                    &&& keys[j].right_idx == right@[j]
                    &&& exprs@[j].0.view() == DbspExprView::Column(keys[j].left.name)
                    &&& exprs@[j].1.view() == DbspExprView::Column(keys[j].right.name)
                },
        decreases on.len() - i,
    {
        proof {
            lemma_pair_views(on@);
            assert(views.take(i + 1).drop_last() =~= views.take(i as int));
            assert(views.take(i + 1).last() == (on@[i as int].0.view(), on@[i as int].1.view()));
        }
        match (&on[i].0, &on[i].1) {
            (LogicalExpr::Column(first), LogicalExpr::Column(second)) => {
                match join_columns(first, second, left_schema, right_schema) {
                    Ok(t) => {
                        let (left_col, left_idx, right_col, right_idx) = t;
                        proof {
                            keys = keys.push(join_key(first@, second@, l, rt)->Ok_0);
                        }
                        left.push(left_idx);
                        right.push(right_idx);
                        exprs.push(
                            (
                                DbspExpr::Column(left_col.name.clone()),
                                DbspExpr::Column(right_col.name.clone()),
                            ),
                        );
                    },
                    Err(e) => {
                        proof {
                            lemma_equality_keys_prefix(views, l, rt, i + 1);
                        }
                        return Err(e);
                    },
                }
            },
            _ => {
                proof {
                    lemma_equality_keys_prefix(views, l, rt, i + 1);
                }
                return Err(
                    parse_error(
                        "Only simple column references are supported in join conditions for incremental views",
                    ),
                );
            },
        }
        i += 1;
    }
    proof {
        assert(views.take(i as int) =~= views);
        assert(positions(left@) =~= left_positions(keys));
        assert(positions(right@) =~= right_positions(keys));
        assert(on_views(exprs@) =~= key_pairs(keys));
    }
    Ok(JoinKeys { left, right, exprs })
}

// The operators.

/// The operator of a join, as a node.
pub open spec fn join_node(
    id: int,
    left: int,
    right: int,
    join_type: JoinType,
    keys: Seq<JoinKeyView>,
    left_schema: Seq<ColumnInfoView>,
    right_schema: Seq<ColumnInfoView>,
    schema: Seq<ColumnInfoView>,
) -> NodeView {
    NodeView {
        operator: OperatorView::Join { join_type, on_exprs: key_pairs(keys), schema },
        inputs: seq![left as i64, right as i64],
        executable: ExecutableView::Join {
            operator_id: id,
            join_type,
            left_keys: left_positions(keys),
            right_keys: right_positions(keys),
            left_columns: schema_names(left_schema),
            right_columns: schema_names(right_schema),
        },
    }
}

/// The operator for the left rows without a match, as a node.
pub open spec fn antijoin_node(
    id: int,
    left: int,
    right: int,
    keys: Seq<JoinKeyView>,
    right_schema: Seq<ColumnInfoView>,
    schema: Seq<ColumnInfoView>,
) -> NodeView {
    NodeView {
        operator: OperatorView::Antijoin {
            schema,
            right_column_count: right_schema.len() as int,
        },
        inputs: seq![left as i64, right as i64],
        executable: ExecutableView::Antijoin {
            operator_id: id,
            left_keys: left_positions(keys),
            right_keys: right_positions(keys),
            mode: EmitMode::NullPad { right_column_count: right_schema.len() as usize },
        },
    }
}

/// The operator that puts the matched and the unmatched rows together, as a node.
pub open spec fn halves_node(id: int, schema: Seq<ColumnInfoView>, inner: int, anti: int) -> NodeView {
    NodeView {
        operator: OperatorView::Merge { schema },
        inputs: seq![inner as i64, anti as i64],
        executable: ExecutableView::Merge {
            operator_id: id,
            mode: UnionModeView::All {
                left_table: "_inner_join_"@ + decimal_int(inner),
                right_table: "_antijoin_"@ + decimal_int(anti),
            },
        },
    }
}

pub open spec fn operator_join_type(t: LogicalJoinType) -> JoinType {
    match t {
        LogicalJoinType::Inner => JoinType::Inner,
        LogicalJoinType::Left => JoinType::Left,
        LogicalJoinType::Right => JoinType::Right,
        LogicalJoinType::Full => JoinType::Full,
        LogicalJoinType::Cross => JoinType::Cross,
    }
}

/// The nodes of a join of two nodes. A LEFT JOIN is an inner join for the matched rows, an
/// antijoin for the others, and a merge of both; every other join is one operator.
pub open spec fn join_nodes_built(
    nodes: Seq<NodeView>,
    left: int,
    right: int,
    join_type: LogicalJoinType,
    keys: Seq<JoinKeyView>,
    left_schema: Seq<ColumnInfoView>,
    right_schema: Seq<ColumnInfoView>,
    schema: Seq<ColumnInfoView>,
) -> Built {
    let id = nodes.len() as int + 1;
    if join_type == LogicalJoinType::Left {
        let inner = join_node(
            id,
            left,
            right,
            JoinType::Inner,
            keys,
            left_schema,
            right_schema,
            schema,
        );
        match added(nodes, inner) {
            Err(e) => Err(e),
            Ok(i) => match added(
                i.0,
                antijoin_node(id + 1, left, right, keys, right_schema, schema),
            ) {
                Err(e) => Err(e),
                Ok(a) => added(a.0, halves_node(id + 2, schema, i.1, a.1)),
            },
        }
    } else {
        added(
            nodes,
            join_node(
                id,
                left,
                right,
                operator_join_type(join_type),
                keys,
                left_schema,
                right_schema,
                schema,
            ),
        )
    }
}

/// The nodes of a join over two nodes: the conditions that read one side below it, the join, and
/// above it the conditions that read both.
#[verifier::opaque]
pub open spec fn join_built(
    nodes: Seq<NodeView>,
    left: int,
    right: int,
    join_type: LogicalJoinType,
    on: Seq<(LogicalExprView, LogicalExprView)>,
    filter: Option<LogicalExprView>,
    left_schema: Seq<ColumnInfoView>,
    right_schema: Seq<ColumnInfoView>,
    schema: Seq<ColumnInfoView>,
) -> Built {
    match push_all(
        Pushed { nodes, left, right, cross: Seq::empty() },
        join_conditions(filter),
        left_schema,
        right_schema,
        join_type == LogicalJoinType::Left,
    ) {
        Err(e) => Err(e),
        Ok(p) => if on.len() == 0 {
            Err(
                ErrorView::ParseError(
                    "Joins in materialized views must have at least one equality condition."@,
                ),
            )
        } else {
            match equality_keys(on, left_schema, right_schema) {
                Err(m) => Err(ErrorView::ParseError(m)),
                Ok(keys) => match join_nodes_built(
                    p.nodes,
                    p.left,
                    p.right,
                    join_type,
                    keys,
                    left_schema,
                    right_schema,
                    schema,
                ) {
                    Err(e) => Err(e),
                    Ok(j) => match conjoined(p.cross) {
                        None => Ok(j),
                        Some(e) => filter_node_built(j.0, j.1, e, schema),
                    },
                },
            }
        },
    }
}

fn copy_positions(list: &Vec<usize>) -> (r: Vec<usize>)
    ensures
        r@ == list@,
{
    let mut out: Vec<usize> = Vec::new();
    let mut i: usize = 0;
    while i < list.len()
        invariant
            i <= list.len(),
            out@.len() == i,
            forall|j: int| 0 <= j < i ==> #[trigger] out@[j] == list@[j],
        decreases list.len() - i,
    {
        out.push(list[i]);
        i += 1;
    }
    assert(out@ =~= list@);
    out
}

fn join_operator(t: LogicalJoinType) -> (r: JoinType)
    ensures
        r == operator_join_type(t),
{
    match t {
        LogicalJoinType::Inner => JoinType::Inner,
        LogicalJoinType::Left => JoinType::Left,
        LogicalJoinType::Right => JoinType::Right,
        LogicalJoinType::Full => JoinType::Full,
        LogicalJoinType::Cross => JoinType::Cross,
    }
}

fn add_join(
    circuit: &mut DbspCircuit,
    left_id: i64,
    right_id: i64,
    join_type: LogicalJoinType,
    keys: JoinKeys,
    left_schema: &LogicalSchema,
    right_schema: &LogicalSchema,
    schema: &LogicalSchema,
    Ghost(key_views): Ghost<Seq<JoinKeyView>>,
) -> (r: Result<i64, LimboError>)
    requires
        old(circuit).wf(),
        1 <= left_id <= old(circuit)@.len(),
        1 <= right_id <= old(circuit)@.len(),
        keys.holds(key_views),
    ensures
        final(circuit).wf(),
        same_frame(*final(circuit), *old(circuit)),
        r is Ok ==> 1 <= r->Ok_0 <= final(circuit)@.len(),
        r is Ok ==> old(circuit)@.len() <= final(circuit)@.len(),
        built(
            r,
            final(circuit)@,
            join_nodes_built(
                old(circuit)@,
                left_id as int,
                right_id as int,
                join_type,
                key_views,
                left_schema@,
                right_schema@,
                schema@,
            ),
        ),
{
    let outer = match join_type {
        LogicalJoinType::Left => true,
        _ => false,
    };
    let operator_id: i64 = circuit.next_id;
    let JoinKeys { left: left_keys, right: right_keys, exprs: on_exprs } = keys;
    let anti_left = copy_positions(&left_keys);
    let anti_right = copy_positions(&right_keys);
    let operator_type = if outer {
        JoinType::Inner
    } else {
        join_operator(join_type)
    };
    let join_id = match circuit.add_node(
        DbspOperator::Join { join_type: operator_type, on_exprs, schema: schema.clone() },
        two_inputs(left_id, right_id),
        Executable::Join {
            operator_id,
            join_type: operator_type,
            left_keys,
            right_keys,
            left_columns: column_names(left_schema),
            right_columns: column_names(right_schema),
        },
    ) {
        Ok(id) => id,
        Err(e) => return Err(e),
    };
    if !outer {
        return Ok(join_id);
    }
    let right_column_count: usize = right_schema.columns.len();
    let anti_operator_id: i64 = circuit.next_id;
    let anti_id = match circuit.add_node(
        DbspOperator::Antijoin { schema: schema.clone(), right_column_count },
        two_inputs(left_id, right_id),
        Executable::Antijoin(
            AntijoinOperator::new(
                anti_operator_id,
                anti_left,
                anti_right,
                EmitMode::NullPad { right_column_count },
            ),
        ),
    ) {
        Ok(id) => id,
        Err(e) => return Err(e),
    };
    let merge_operator_id: i64 = circuit.next_id;
    let mut left_table = "_inner_join_".to_owned();
    left_table.append(decimal_i64(join_id).as_str());
    let mut right_table = "_antijoin_".to_owned();
    right_table.append(decimal_i64(anti_id).as_str());
    circuit.add_node(
        DbspOperator::Merge { schema: schema.clone() },
        two_inputs(join_id, anti_id),
        Executable::Merge {
            operator_id: merge_operator_id,
            mode: UnionMode::All { left_table, right_table },
        },
    )
}

/// What a filter that may be absent holds.
pub open spec fn condition_view(filter: Option<Box<LogicalExpr>>) -> Option<LogicalExprView> {
    match filter {
        Some(e) => Some(e.view()),
        None => None,
    }
}

/// Adds a join of two nodes.
pub fn compile_join(
    circuit: &mut DbspCircuit,
    left_id: i64,
    right_id: i64,
    join_type: LogicalJoinType,
    on: &Vec<(LogicalExpr, LogicalExpr)>,
    filter: &Option<Box<LogicalExpr>>,
    left_schema: &LogicalSchema,
    right_schema: &LogicalSchema,
    schema: &LogicalSchema,
) -> (r: Result<i64, LimboError>)
    requires
        old(circuit).wf(),
        1 <= left_id <= old(circuit)@.len(),
        1 <= right_id <= old(circuit)@.len(),
    ensures
        final(circuit).wf(),
        same_frame(*final(circuit), *old(circuit)),
        r is Ok ==> 1 <= r->Ok_0 <= final(circuit)@.len(),
        r is Ok ==> old(circuit)@.len() <= final(circuit)@.len(),
        built(
            r,
            final(circuit)@,
            join_built(
                old(circuit)@,
                left_id as int,
                right_id as int,
                join_type,
                pair_views(on@),
                condition_view(*filter),
                left_schema@,
                right_schema@,
                schema@,
            ),
        ),
{
    proof {
        reveal(join_built);
    }
    let outer = match join_type {
        LogicalJoinType::Left => true,
        _ => false,
    };
    let conditions = match filter {
        Some(e) => split_conjuncts(e),
        None => Vec::new(),
    };
    proof {
        lemma_lexpr_views(conditions@);
        lemma_pair_views(on@);
        assert(lexpr_views(conditions@) =~= join_conditions(condition_view(*filter)));
    }
    let (left, right, cross) = match push_conditions(
        circuit,
        left_id,
        right_id,
        &conditions,
        left_schema,
        right_schema,
        outer,
    ) {
        Ok(t) => t,
        Err(e) => return Err(e),
    };
    if on.len() == 0 {
        return Err(
            parse_error("Joins in materialized views must have at least one equality condition."),
        );
    }
    let keys = match find_keys(on, left_schema, right_schema) {
        Ok(k) => k,
        Err(e) => return Err(e),
    };
    let ghost key_views = equality_keys(pair_views(on@), left_schema@, right_schema@)->Ok_0;
    let id = match add_join(
        circuit,
        left,
        right,
        join_type,
        keys,
        left_schema,
        right_schema,
        schema,
        Ghost(key_views),
    ) {
        Ok(id) => id,
        Err(e) => return Err(e),
    };
    match conjoin(cross) {
        Some(e) => add_filter_node(circuit, id, &e, schema),
        None => Ok(id),
    }
}

/// A join that is no LEFT JOIN is one operator, of the type that the plan asks for, and only a LEFT
/// JOIN has an operator for the rows without a match.
pub proof fn law_a_join_is_of_the_type_that_is_asked_for(
    nodes: Seq<NodeView>,
    left: int,
    right: int,
    join_type: LogicalJoinType,
    keys: Seq<JoinKeyView>,
    left_schema: Seq<ColumnInfoView>,
    right_schema: Seq<ColumnInfoView>,
    schema: Seq<ColumnInfoView>,
)
    requires
        join_nodes_built(
            nodes,
            left,
            right,
            join_type,
            keys,
            left_schema,
            right_schema,
            schema,
        ) is Ok,
        join_type != LogicalJoinType::Left,
    ensures
        ({
            let b = join_nodes_built(
                nodes,
                left,
                right,
                join_type,
                keys,
                left_schema,
                right_schema,
                schema,
            )->Ok_0;
            &&& b.0.len() == nodes.len() + 1
            &&& b.1 == b.0.len()
            &&& b.0.last().inputs == seq![left as i64, right as i64]
            &&& b.0.last().executable matches ExecutableView::Join {
                join_type: jt,
                left_keys,
                right_keys,
                ..
            } && {
                &&& (jt == JoinType::Inner) == (join_type == LogicalJoinType::Inner)
                &&& (jt == JoinType::Right) == (join_type == LogicalJoinType::Right)
                &&& (jt == JoinType::Full) == (join_type == LogicalJoinType::Full)
                &&& (jt == JoinType::Cross) == (join_type == LogicalJoinType::Cross)
                &&& left_keys.len() == keys.len()
                &&& right_keys.len() == keys.len()
                &&& forall|k: int|
                    0 <= k < keys.len() ==> left_keys[k] == (#[trigger] keys[k]).left_idx
                        && right_keys[k] == keys[k].right_idx
            }
        }),
{
}

} // verus!
