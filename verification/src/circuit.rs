//! Circuits: the operators that maintain a view, and how they feed each other.
//!
//! A circuit is a directed acyclic graph. Its nodes are numbered from 1 in the order in which
//! they were added, and a node reads only nodes that were added before it.

use vstd::prelude::*;

use crate::antijoin::{AntijoinOperator, EmitMode};
use crate::ast::text_view;
use crate::error::{ErrorView, LimboError};
use crate::expr::{
    compiled_views, dbsp_views, CompiledExpression, CompiledView, DbspExpr, DbspExprView,
};
use crate::filter::{FilterPredicate, FilterView};
use crate::logical::{ColumnInfoView, LogicalSchema};
use crate::names::IdIndex;
use crate::order::MatviewOrderBy;
use crate::text::texts;
use crate::value::{data, Datum, Value};

verus! {

/// The kind of a join operator.
#[derive(Debug, PartialEq, Eq, Clone, Copy, Structural)]
pub enum JoinType {
    Inner,
    Left,
    Right,
    Full,
    Cross,
}

/// An aggregate that the aggregate operator maintains, with the column that it reads.
#[allow(inconsistent_fields)]
#[derive(Debug, PartialEq, Eq)]
pub enum AggregateFunction {
    Count,
    CountDistinct(usize),
    Sum(usize),
    SumDistinct(usize),
    Avg(usize),
    AvgDistinct(usize),
    Min(usize),
    Max(usize),
    JsonGroupArray(usize),
    JsonGroupArrayDistinct(usize),
    GroupConcat { col: usize, separator: String },
    GroupConcatDistinct { col: usize, separator: String },
}

#[allow(inconsistent_fields)]
#[verifier::ext_equal]
pub enum AggregateFunctionView {
    Count,
    CountDistinct(int),
    Sum(int),
    SumDistinct(int),
    Avg(int),
    AvgDistinct(int),
    Min(int),
    Max(int),
    JsonGroupArray(int),
    JsonGroupArrayDistinct(int),
    GroupConcat { col: int, separator: Seq<char> },
    GroupConcatDistinct { col: int, separator: Seq<char> },
}

impl View for AggregateFunction {
    type V = AggregateFunctionView;

    open spec fn view(&self) -> AggregateFunctionView {
        match self {
            AggregateFunction::Count => AggregateFunctionView::Count,
            AggregateFunction::CountDistinct(c) => AggregateFunctionView::CountDistinct(*c as int),
            AggregateFunction::Sum(c) => AggregateFunctionView::Sum(*c as int),
            AggregateFunction::SumDistinct(c) => AggregateFunctionView::SumDistinct(*c as int),
            AggregateFunction::Avg(c) => AggregateFunctionView::Avg(*c as int),
            AggregateFunction::AvgDistinct(c) => AggregateFunctionView::AvgDistinct(*c as int),
            AggregateFunction::Min(c) => AggregateFunctionView::Min(*c as int),
            AggregateFunction::Max(c) => AggregateFunctionView::Max(*c as int),
            AggregateFunction::JsonGroupArray(c) => AggregateFunctionView::JsonGroupArray(
                *c as int,
            ),
            AggregateFunction::JsonGroupArrayDistinct(c) => {
                AggregateFunctionView::JsonGroupArrayDistinct(*c as int)
            },
            AggregateFunction::GroupConcat { col, separator } => {
                AggregateFunctionView::GroupConcat { col: *col as int, separator: separator@ }
            },
            AggregateFunction::GroupConcatDistinct { col, separator } => {
                AggregateFunctionView::GroupConcatDistinct {
                    col: *col as int,
                    separator: separator@,
                }
            },
        }
    }
}

pub open spec fn function_views(list: Seq<AggregateFunction>) -> Seq<AggregateFunctionView> {
    list.map_values(|f: AggregateFunction| f@)
}

impl Clone for AggregateFunction {
    fn clone(&self) -> (r: Self)
        ensures
            r@ == self@,
    {
        match self {
            AggregateFunction::Count => AggregateFunction::Count,
            AggregateFunction::CountDistinct(c) => AggregateFunction::CountDistinct(*c),
            AggregateFunction::Sum(c) => AggregateFunction::Sum(*c),
            AggregateFunction::SumDistinct(c) => AggregateFunction::SumDistinct(*c),
            AggregateFunction::Avg(c) => AggregateFunction::Avg(*c),
            AggregateFunction::AvgDistinct(c) => AggregateFunction::AvgDistinct(*c),
            AggregateFunction::Min(c) => AggregateFunction::Min(*c),
            AggregateFunction::Max(c) => AggregateFunction::Max(*c),
            AggregateFunction::JsonGroupArray(c) => AggregateFunction::JsonGroupArray(*c),
            AggregateFunction::JsonGroupArrayDistinct(c) => {
                AggregateFunction::JsonGroupArrayDistinct(*c)
            },
            AggregateFunction::GroupConcat { col, separator } => AggregateFunction::GroupConcat {
                col: *col,
                separator: separator.clone(),
            },
            AggregateFunction::GroupConcatDistinct { col, separator } => {
                AggregateFunction::GroupConcatDistinct { col: *col, separator: separator.clone() }
            },
        }
    }
}

/// How a merge operator combines its inputs.
#[derive(Debug, PartialEq, Eq)]
pub enum UnionMode {
    Distinct,
    /// Rows are kept apart by where they come from.
    All { left_table: String, right_table: String },
}

#[verifier::ext_equal]
pub enum UnionModeView {
    Distinct,
    All { left_table: Seq<char>, right_table: Seq<char> },
}

impl View for UnionMode {
    type V = UnionModeView;

    open spec fn view(&self) -> UnionModeView {
        match self {
            UnionMode::Distinct => UnionModeView::Distinct,
            UnionMode::All { left_table, right_table } => UnionModeView::All {
                left_table: left_table@,
                right_table: right_table@,
            },
        }
    }
}

/// What a node of a circuit is.
#[allow(inconsistent_fields)]
#[derive(Debug, PartialEq, Eq)]
pub enum DbspOperator {
    Filter { predicate: DbspExpr },
    Projection { exprs: Vec<DbspExpr>, schema: LogicalSchema },
    Aggregate {
        group_exprs: Vec<DbspExpr>,
        aggr_exprs: Vec<AggregateFunction>,
        schema: LogicalSchema,
    },
    Join { join_type: JoinType, on_exprs: Vec<(DbspExpr, DbspExpr)>, schema: LogicalSchema },
    /// A source of changes.
    Input { name: String, schema: LogicalSchema },
    /// Constant rows.
    Literal { schema: LogicalSchema },
    Merge { schema: LogicalSchema },
    /// The unmatched half of a LEFT JOIN.
    Antijoin { schema: LogicalSchema, right_column_count: usize },
    Distinct { schema: LogicalSchema },
    /// A fixed point: its inputs are the base case, the step, and the input that feeds the step.
    Recursive { name: String, max_iterations: usize, union_all: bool, schema: LogicalSchema },
}

#[allow(inconsistent_fields)]
#[verifier::ext_equal]
pub enum OperatorView {
    Filter { predicate: DbspExprView },
    Projection { exprs: Seq<DbspExprView>, schema: Seq<ColumnInfoView> },
    Aggregate {
        group_exprs: Seq<DbspExprView>,
        aggr_exprs: Seq<AggregateFunctionView>,
        schema: Seq<ColumnInfoView>,
    },
    Join {
        join_type: JoinType,
        on_exprs: Seq<(DbspExprView, DbspExprView)>,
        schema: Seq<ColumnInfoView>,
    },
    Input { name: Seq<char>, schema: Seq<ColumnInfoView> },
    Literal { schema: Seq<ColumnInfoView> },
    Merge { schema: Seq<ColumnInfoView> },
    Antijoin { schema: Seq<ColumnInfoView>, right_column_count: int },
    Distinct { schema: Seq<ColumnInfoView> },
    Recursive {
        name: Seq<char>,
        max_iterations: int,
        union_all: bool,
        schema: Seq<ColumnInfoView>,
    },
}

pub open spec fn on_views(list: Seq<(DbspExpr, DbspExpr)>) -> Seq<(DbspExprView, DbspExprView)> {
    list.map_values(|p: (DbspExpr, DbspExpr)| (p.0.view(), p.1.view()))
}

impl View for DbspOperator {
    type V = OperatorView;

    open spec fn view(&self) -> OperatorView {
        match self {
            DbspOperator::Filter { predicate } => OperatorView::Filter {
                predicate: predicate.view(),
            },
            DbspOperator::Projection { exprs, schema } => OperatorView::Projection {
                exprs: dbsp_views(exprs@),
                schema: schema@,
            },
            DbspOperator::Aggregate { group_exprs, aggr_exprs, schema } => {
                OperatorView::Aggregate {
                    group_exprs: dbsp_views(group_exprs@),
                    aggr_exprs: function_views(aggr_exprs@),
                    schema: schema@,
                }
            },
            DbspOperator::Join { join_type, on_exprs, schema } => OperatorView::Join {
                join_type: *join_type,
                on_exprs: on_views(on_exprs@),
                schema: schema@,
            },
            DbspOperator::Input { name, schema } => OperatorView::Input {
                name: name@,
                schema: schema@,
            },
            DbspOperator::Literal { schema } => OperatorView::Literal { schema: schema@ },
            DbspOperator::Merge { schema } => OperatorView::Merge { schema: schema@ },
            DbspOperator::Antijoin { schema, right_column_count } => OperatorView::Antijoin {
                schema: schema@,
                right_column_count: *right_column_count as int,
            },
            DbspOperator::Distinct { schema } => OperatorView::Distinct { schema: schema@ },
            DbspOperator::Recursive { name, max_iterations, union_all, schema } => {
                OperatorView::Recursive {
                    name: name@,
                    max_iterations: *max_iterations as int,
                    union_all: *union_all,
                    schema: schema@,
                }
            },
        }
    }
}

/// What runs at a node: the operator with all that it is made from.
#[allow(inconsistent_fields)]
#[derive(Debug)]
pub enum Executable {
    Filter(FilterPredicate),
    Project {
        exprs: Vec<CompiledExpression>,
        aliases: Vec<Option<String>>,
        input_names: Vec<String>,
        output_names: Vec<String>,
    },
    Aggregate {
        operator_id: i64,
        group_by: Vec<usize>,
        functions: Vec<AggregateFunction>,
        input_names: Vec<String>,
        filters: Vec<Option<FilterPredicate>>,
    },
    Join {
        operator_id: i64,
        join_type: JoinType,
        left_keys: Vec<usize>,
        right_keys: Vec<usize>,
        left_columns: Vec<String>,
        right_columns: Vec<String>,
    },
    Antijoin(AntijoinOperator),
    Merge { operator_id: i64, mode: UnionMode },
    Input { name: String },
    Literal { rows: Vec<Vec<Value>> },
    Recursive { operator_id: i64, name: String, max_iterations: usize, union_all: bool },
}

#[allow(inconsistent_fields)]
#[verifier::ext_equal]
pub enum ExecutableView {
    Filter(FilterView),
    Project {
        exprs: Seq<CompiledView>,
        aliases: Seq<Option<Seq<char>>>,
        input_names: Seq<Seq<char>>,
        output_names: Seq<Seq<char>>,
    },
    Aggregate {
        operator_id: int,
        group_by: Seq<int>,
        functions: Seq<AggregateFunctionView>,
        input_names: Seq<Seq<char>>,
        filters: Seq<Option<FilterView>>,
    },
    Join {
        operator_id: int,
        join_type: JoinType,
        left_keys: Seq<int>,
        right_keys: Seq<int>,
        left_columns: Seq<Seq<char>>,
        right_columns: Seq<Seq<char>>,
    },
    Antijoin { operator_id: int, left_keys: Seq<int>, right_keys: Seq<int>, mode: EmitMode },
    Merge { operator_id: int, mode: UnionModeView },
    Input { name: Seq<char> },
    Literal { rows: Seq<Seq<Datum>> },
    Recursive { operator_id: int, name: Seq<char>, max_iterations: int, union_all: bool },
}

pub open spec fn positions(list: Seq<usize>) -> Seq<int> {
    list.map_values(|i: usize| i as int)
}

pub open spec fn alias_views(list: Seq<Option<String>>) -> Seq<Option<Seq<char>>> {
    list.map_values(|a: Option<String>| text_view(a))
}

pub open spec fn filter_view(f: Option<FilterPredicate>) -> Option<FilterView> {
    match f {
        Some(p) => Some(p.view()),
        None => None,
    }
}

pub open spec fn filter_views(list: Seq<Option<FilterPredicate>>) -> Seq<Option<FilterView>> {
    list.map_values(|f: Option<FilterPredicate>| filter_view(f))
}

pub open spec fn literal_rows(rows: Seq<Vec<Value>>) -> Seq<Seq<Datum>> {
    rows.map_values(|r: Vec<Value>| data(r@))
}

impl View for Executable {
    type V = ExecutableView;

    open spec fn view(&self) -> ExecutableView {
        match self {
            Executable::Filter(p) => ExecutableView::Filter(p.view()),
            Executable::Project { exprs, aliases, input_names, output_names } => {
                ExecutableView::Project {
                    exprs: compiled_views(exprs@),
                    aliases: alias_views(aliases@),
                    input_names: texts(input_names@),
                    output_names: texts(output_names@),
                }
            },
            Executable::Aggregate { operator_id, group_by, functions, input_names, filters } => {
                ExecutableView::Aggregate {
                    operator_id: *operator_id as int,
                    group_by: positions(group_by@),
                    functions: function_views(functions@),
                    input_names: texts(input_names@),
                    filters: filter_views(filters@),
                }
            },
            Executable::Join {
                operator_id,
                join_type,
                left_keys,
                right_keys,
                left_columns,
                right_columns,
            } => ExecutableView::Join {
                operator_id: *operator_id as int,
                join_type: *join_type,
                left_keys: positions(left_keys@),
                right_keys: positions(right_keys@),
                left_columns: texts(left_columns@),
                right_columns: texts(right_columns@),
            },
            Executable::Antijoin(op) => ExecutableView::Antijoin {
                operator_id: op.operator_id as int,
                left_keys: positions(op.left_key_indices@),
                right_keys: positions(op.right_key_indices@),
                mode: op.mode,
            },
            Executable::Merge { operator_id, mode } => ExecutableView::Merge {
                operator_id: *operator_id as int,
                mode: mode@,
            },
            Executable::Input { name } => ExecutableView::Input { name: name@ },
            Executable::Literal { rows } => ExecutableView::Literal { rows: literal_rows(rows@) },
            Executable::Recursive { operator_id, name, max_iterations, union_all } => {
                ExecutableView::Recursive {
                    operator_id: *operator_id as int,
                    name: name@,
                    max_iterations: *max_iterations as int,
                    union_all: *union_all,
                }
            },
        }
    }
}

/// A node of a circuit.
#[derive(Debug)]
pub struct DbspNode {
    pub id: i64,
    pub operator: DbspOperator,
    /// The nodes that it reads.
    pub inputs: Vec<i64>,
    pub executable: Executable,
}

#[verifier::ext_equal]
pub struct NodeView {
    pub operator: OperatorView,
    pub inputs: Seq<i64>,
    pub executable: ExecutableView,
}

impl View for DbspNode {
    type V = NodeView;

    open spec fn view(&self) -> NodeView {
        NodeView {
            operator: self.operator@,
            inputs: self.inputs@,
            executable: self.executable@,
        }
    }
}

/// The number of nodes that a circuit can have: their numbers, and the next one, are `i64`s.
pub const MAX_NODES: u64 = 0x7fff_ffff_ffff_fffe;

/// A circuit.
#[derive(Debug)]
pub struct DbspCircuit {
    /// The nodes, in the order in which they were added.
    pub nodes: Vec<DbspNode>,
    /// The position of every node.
    pub index: IdIndex,
    pub next_id: i64,
    /// The node whose output the view is.
    pub root: Option<i64>,
    /// The columns of the root.
    pub output_schema: LogicalSchema,
    /// Root page of the view's own rows.
    pub main_data_root: i64,
    /// Root page of the operators' state.
    pub internal_state_root: i64,
    /// Root page of the index over the operators' state.
    pub internal_state_index_root: i64,
    pub order_by: MatviewOrderBy,
    pub limit: Option<i64>,
}

/// Every node reads only nodes before it.
pub open spec fn acyclic(nodes: Seq<NodeView>) -> bool {
    forall|i: int, j: int|
        0 <= i < nodes.len() && 0 <= j < nodes[i].inputs.len() ==> 1 <= #[trigger] nodes[i].inputs[j]
            <= i
}

impl View for DbspCircuit {
    type V = Seq<NodeView>;

    open spec fn view(&self) -> Seq<NodeView> {
        self.nodes@.map_values(|n: DbspNode| n@)
    }
}

impl DbspCircuit {
    /// Nodes are numbered from 1, can be found by their number, and read only nodes before them.
    pub open spec fn wf(&self) -> bool {
        &&& self.nodes@.len() <= MAX_NODES
        &&& self.nodes@.len() <= usize::MAX
        &&& self.next_id == self.nodes@.len() + 1
        &&& forall|i: int| 0 <= i < self.nodes@.len() ==> (#[trigger] self.nodes@[i]).id == i + 1
        &&& forall|id: i64|
            #[trigger] self.index@.dom().contains(id) <==> 1 <= id <= self.nodes@.len()
        &&& forall|id: i64| 1 <= id <= self.nodes@.len() ==> #[trigger] self.index@[id] == id - 1
        &&& acyclic(self@)
        &&& match self.root {
            Some(r) => 1 <= r <= self.nodes@.len(),
            None => true,
        }
    }

    /// A circuit without nodes. The root and its columns are set once the nodes are there.
    pub fn new(
        main_data_root: i64,
        internal_state_root: i64,
        internal_state_index_root: i64,
        order_by: MatviewOrderBy,
        limit: Option<i64>,
    ) -> (r: Self)
        ensures
            r.wf(),
            r@.len() == 0,
            r.root is None,
            r.output_schema@.len() == 0,
            r.main_data_root == main_data_root,
            r.internal_state_root == internal_state_root,
            r.internal_state_index_root == internal_state_index_root,
            r.order_by == order_by,
            r.limit == limit,
    {
        DbspCircuit {
            nodes: Vec::new(),
            index: IdIndex::new(),
            next_id: 1,
            root: None,
            output_schema: LogicalSchema::new(Vec::new()),
            main_data_root,
            internal_state_root,
            internal_state_index_root,
            order_by,
            limit,
        }
    }

    /// A circuit for a view without ORDER BY and LIMIT.
    pub fn new_table_only(
        main_data_root: i64,
        internal_state_root: i64,
        internal_state_index_root: i64,
    ) -> (r: Self)
        ensures
            r.wf(),
            r@.len() == 0,
            r.root is None,
            r.order_by.columns@.len() == 0,
            r.limit is None,
            r.main_data_root == main_data_root,
            r.internal_state_root == internal_state_root,
            r.internal_state_index_root == internal_state_index_root,
    {
        DbspCircuit::new(
            main_data_root,
            internal_state_root,
            internal_state_index_root,
            MatviewOrderBy { columns: Vec::new() },
            None,
        )
    }

    /// Whether the circuit keeps no state.
    pub fn is_one_shot(&self) -> (r: bool)
        ensures
            r == (self.internal_state_root == 0 && self.internal_state_index_root == 0),
    {
        self.internal_state_root == 0 && self.internal_state_index_root == 0
    }

    /// Makes a node the root.
    pub fn set_root(&mut self, root_id: i64, schema: LogicalSchema)
        requires
            old(self).wf(),
            1 <= root_id <= old(self)@.len(),
        ensures
            final(self).wf(),
            final(self)@ == old(self)@,
            final(self).root == Some(root_id),
            final(self).output_schema == schema,
            final(self).main_data_root == old(self).main_data_root,
            final(self).internal_state_root == old(self).internal_state_root,
            final(self).internal_state_index_root == old(self).internal_state_index_root,
            final(self).order_by == old(self).order_by,
            final(self).limit == old(self).limit,
    {
        self.root = Some(root_id);
        self.output_schema = schema;
    }

    /// Adds a node that reads nodes already there, and gives its number.
    pub fn add_node(
        &mut self,
        operator: DbspOperator,
        inputs: Vec<i64>,
        executable: Executable,
    ) -> (r: Result<i64, LimboError>)
        requires
            old(self).wf(),
            forall|j: int|
                0 <= j < inputs@.len() ==> 1 <= #[trigger] inputs@[j] <= old(self)@.len(),
        ensures
            final(self).wf(),
            final(self).root == old(self).root,
            final(self).output_schema == old(self).output_schema,
            final(self).main_data_root == old(self).main_data_root,
            final(self).internal_state_root == old(self).internal_state_root,
            final(self).internal_state_index_root == old(self).internal_state_index_root,
            final(self).order_by == old(self).order_by,
            final(self).limit == old(self).limit,
            if old(self)@.len() < MAX_NODES {
                &&& r matches Ok(id) && id == old(self)@.len() + 1
                &&& final(self)@ == old(self)@.push(
                    NodeView {
                        operator: operator@,
                        inputs: inputs@,
                        executable: executable@,
                    },
                )
            } else {
                r matches Err(e) && e@ == too_many_nodes() && *final(self) == *old(self)
            },
    {
        if self.nodes.len() as u64 >= MAX_NODES {
            return Err(LimboError::InternalError("Circuit has too many nodes".to_owned()));
        }
        let ghost before = *self;
        let id: i64 = self.next_id;
        let at: usize = self.nodes.len();
        let node = DbspNode { id, operator, inputs, executable };
        let ghost view = node@;
        self.nodes.push(node);
        self.index.insert(id, at);
        self.next_id = id + 1;
        let count: usize = self.nodes.len();
        assert(self.nodes@.len() == count);
        proof {
            assert(self@ =~= before@.push(view));
            assert forall|i: int, j: int|
                0 <= i < self@.len() && 0 <= j < self@[i].inputs.len() implies 1
                <= #[trigger] self@[i].inputs[j] <= i by {
                if i < before@.len() {
                    assert(self@[i] == before@[i]);
                    assert(before@[i].inputs[j] <= i);
                }
            }
            assert forall|k: i64| 1 <= k <= self.nodes@.len() implies #[trigger] self.index@[k] == k
                - 1 by {
                if k != id {
                    assert(before.index@[k] == k - 1);
                }
            }
            assert forall|k: i64|
                #[trigger] self.index@.dom().contains(k) <==> 1 <= k <= self.nodes@.len() by {
                assert(before.index@.dom().contains(k) <==> 1 <= k <= before.nodes@.len());
            }
        }
        Ok(id)
    }

    /// The node with a number.
    pub fn node(&self, id: i64) -> (r: Option<&DbspNode>)
        requires
            self.wf(),
        ensures
            match r {
                Some(n) => 1 <= id <= self@.len() && *n == self.nodes@[id - 1],
                None => !(1 <= id <= self@.len()),
            },
    {
        match self.index.get(id) {
            Some(at) => {
                assert(self.index@.dom().contains(id));
                assert(self.index@[id] == id - 1);
                Some(&self.nodes[at])
            },
            None => {
                assert(!self.index@.dom().contains(id));
                None
            },
        }
    }
}

/// The numbers of the first `n` nodes that iterate to a fixed point.
pub open spec fn recursive_ids(nodes: Seq<NodeView>, n: int) -> Seq<i64>
    decreases n,
{
    if n <= 0 {
        Seq::empty()
    } else if nodes[n - 1].operator is Recursive {
        recursive_ids(nodes, n - 1).push(n as i64)
    } else {
        recursive_ids(nodes, n - 1)
    }
}

/// Those of some numbers that are marked.
pub open spec fn marked(ids: Seq<i64>, marks: Seq<bool>, n: int) -> Seq<i64>
    decreases n,
{
    if n <= 0 {
        Seq::empty()
    } else if marks[n - 1] {
        marked(ids, marks, n - 1).push(ids[n - 1])
    } else {
        marked(ids, marks, n - 1)
    }
}

impl DbspCircuit {
    /// The nodes that iterate to a fixed point. Their operators hold state in memory: it is saved
    /// before a run that must leave no trace and restored after it, and reset after a rollback.
    pub fn recursive_nodes(&self) -> (r: Vec<i64>)
        requires
            self.wf(),
        ensures
            r@ == recursive_ids(self@, self@.len() as int),
    {
        let mut out: Vec<i64> = Vec::new();
        let mut i: usize = 0;
        while i < self.nodes.len()
            invariant
                i <= self.nodes.len(),
                self.wf(),
                out@ == recursive_ids(self@, i as int),
            decreases self.nodes.len() - i,
        {
            assert(self@[i as int] == self.nodes@[i as int]@);
            match &self.nodes[i].operator {
                DbspOperator::Recursive { .. } => {
                    out.push(self.nodes[i].id);
                },
                _ => {},
            }
            i += 1;
        }
        out
    }

    /// The nodes whose operators must be given their state back from the stored view, where
    /// `needs_restore` tells of each node that iterates whether its operator does. A view that is
    /// not stored has none to give.
    pub fn nodes_to_restore(&self, needs_restore: &Vec<bool>) -> (r: Vec<i64>)
        requires
            self.wf(),
            needs_restore@.len() == recursive_ids(self@, self@.len() as int).len(),
        ensures
            r@ == (if self.main_data_root == 0 {
                Seq::empty()
            } else {
                marked(
                    recursive_ids(self@, self@.len() as int),
                    needs_restore@,
                    needs_restore@.len() as int,
                )
            }),
    {
        let mut out: Vec<i64> = Vec::new();
        assert(out@ =~= Seq::<i64>::empty());
        if self.main_data_root == 0 {
            return out;
        }
        let ids = self.recursive_nodes();
        let mut i: usize = 0;
        while i < needs_restore.len()
            invariant
                i <= needs_restore.len(),
                ids@.len() == needs_restore@.len(),
                out@ == marked(ids@, needs_restore@, i as int),
            decreases needs_restore.len() - i,
        {
            if needs_restore[i] {
                out.push(ids[i]);
            }
            i += 1;
        }
        out
    }
}

pub open spec fn too_many_nodes() -> ErrorView {
    ErrorView::InternalError("Circuit has too many nodes"@)
}

/// The nodes that iterate are listed once each, from first to last, and no others.
pub proof fn law_iterating_nodes_are_listed(nodes: Seq<NodeView>, n: int, id: i64)
    requires
        0 <= n <= nodes.len(),
        nodes.len() <= MAX_NODES,
    ensures
        recursive_ids(nodes, n).contains(id) <==> 1 <= id <= n && nodes[id - 1].operator is Recursive,
        forall|i: int, j: int|
            0 <= i < j < recursive_ids(nodes, n).len() ==> #[trigger] recursive_ids(nodes, n)[i]
                < #[trigger] recursive_ids(nodes, n)[j],
    decreases n,
{
    if n > 0 {
        let front = recursive_ids(nodes, n - 1);
        let all = recursive_ids(nodes, n);
        law_iterating_nodes_are_listed(nodes, n - 1, id);
        if nodes[n - 1].operator is Recursive {
            assert(all == front.push(n as i64));
            if front.contains(id) {
                let i = choose|i: int| 0 <= i < front.len() && front[i] == id;
                assert(all[i] == id);
            }
            if id == n {
                assert(all[front.len() as int] == id);
            }
            if all.contains(id) {
                let i = choose|i: int| 0 <= i < all.len() && all[i] == id;
                if i < front.len() {
                    assert(front[i] == id);
                }
            }
            assert forall|i: int, j: int| 0 <= i < j < all.len() implies #[trigger] all[i]
                < #[trigger] all[j] by {
                if j < front.len() {
                    assert(front[i] < front[j]);
                } else {
                    law_iterating_nodes_are_listed(nodes, n - 1, front[i]);
                    assert(front.contains(front[i]));
                }
            }
        }
    }
}

/// Of some numbers those are kept, in their order, that are marked.
pub proof fn law_marked_numbers_are_kept(ids: Seq<i64>, marks: Seq<bool>, n: int, id: i64)
    requires
        0 <= n <= marks.len(),
        n <= ids.len(),
    ensures
        marked(ids, marks, n).contains(id) <==> exists|k: int|
            0 <= k < n && marks[k] && #[trigger] ids[k] == id,
    decreases n,
{
    if n > 0 {
        let front = marked(ids, marks, n - 1);
        let all = marked(ids, marks, n);
        law_marked_numbers_are_kept(ids, marks, n - 1, id);
        if front.contains(id) {
            let i = choose|i: int| 0 <= i < front.len() && front[i] == id;
            assert(all[i] == id);
        }
        if marks[n - 1] {
            assert(all[front.len() as int] == ids[n - 1]);
        }
        if all.contains(id) {
            let i = choose|i: int| 0 <= i < all.len() && all[i] == id;
            if i < front.len() {
                assert(front[i] == id);
            }
        }
    }
}

} // verus!
