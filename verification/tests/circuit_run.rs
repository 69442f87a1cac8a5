//! Running a circuit, committing what it puts out, and the changes that it is fed.

use std::collections::BTreeMap;

use incremental::ast::BinaryOperator;
use incremental::circuit::{DbspCircuit, DbspOperator, Executable};
use incremental::commit::{sort_changes, CommitAction, CommitEvent, CommitState};
use incremental::compiler::DbspCompiler;
use incremental::deltas::{DeltaSet, InputDeltas};
use incremental::error::LimboError;
use incremental::execute::{Action, Event, ExecuteState};
use incremental::filter::FilterPredicate;
use incremental::logical::{
    Column, ColumnInfo, LogicalExpr, LogicalPlan, LogicalSchema, Type,
};
use incremental::order::{MatviewOrderBy, SortColumn, SortOrder};
use incremental::upstream::{
    collect_upstream_views, gather_inputs, total_relevant_tx_len, UpstreamRun, ViewCatalog,
    ViewReads,
};
use incremental::value::{HashableRow, Numeric, Value};
use incremental::write_row::{RowAction, RowEvent, SeekResult};
use incremental::zset::{Delta, DeltaPair};

fn schema() -> LogicalSchema {
    LogicalSchema::new(
        ["id", "n"]
            .iter()
            .map(|name| ColumnInfo {
                name: name.to_string(),
                ty: Type::Integer,
                database: None,
                table: Some("t".to_string()),
                table_alias: None,
            })
            .collect(),
    )
}

fn scan(name: &str) -> LogicalPlan {
    LogicalPlan::TableScan { table_name: name.to_string(), schema: schema() }
}

/// SELECT * FROM t WHERE n > 10
fn above_ten(input: LogicalPlan) -> LogicalPlan {
    LogicalPlan::Filter {
        input: Box::new(input),
        predicate: LogicalExpr::BinaryExpr {
            left: Box::new(LogicalExpr::Column(Column { name: "n".to_string(), table: None })),
            op: BinaryOperator::Greater,
            right: Box::new(LogicalExpr::Literal(Value::from_i64(10))),
        },
    }
}

/// SELECT * FROM r, where r is the recursive table over t.
fn recursive() -> LogicalPlan {
    let itself = LogicalPlan::RecursiveCTERef { name: "r".to_string(), schema: schema() };
    LogicalPlan::RecursiveCTE {
        name: "r".to_string(),
        base_case: Box::new(scan("t")),
        recursive_step: Box::new(above_ten(itself)),
        union_all: true,
        max_iterations: Some(5),
        schema: schema(),
    }
}

fn compile(plan: &LogicalPlan, order_by: MatviewOrderBy) -> DbspCircuit {
    DbspCompiler::new(2, 3, 4, order_by, None).compile(plan).unwrap()
}

fn unordered() -> MatviewOrderBy {
    MatviewOrderBy { columns: vec![] }
}

fn row(id: i64, n: i64) -> Vec<Value> {
    vec![Value::from_i64(id), Value::from_i64(n)]
}

fn delta(changes: &[(i64, i64, isize)]) -> Delta {
    let mut d = Delta::new();
    for (id, n, w) in changes {
        d.push(HashableRow::new(*id, row(*id, *n)), *w);
    }
    d
}

fn inputs(tables: Vec<(&str, Delta)>) -> InputDeltas {
    InputDeltas::from_map(tables.into_iter().map(|(n, d)| (n.to_string(), d)).collect())
}

/// The operators that the plans of this file compile to.
fn operate(circuit: &DbspCircuit, node_id: i64, deltas: DeltaPair) -> Delta {
    let node = circuit.node(node_id).unwrap();
    match &node.executable {
        Executable::Filter(FilterPredicate::GreaterThan { column_idx, value }) => {
            let mut out = Delta::new();
            for (r, w) in deltas.left.changes {
                if let (Value::Numeric(Numeric::Integer(a)), Value::Numeric(Numeric::Integer(b))) =
                    (&r.values[*column_idx], value)
                {
                    if a > b {
                        out.push(r, w);
                    }
                }
            }
            out
        }
        Executable::Merge { .. } => {
            let mut out = deltas.left;
            out.merge(&deltas.right);
            out
        }
        _ => deltas.left,
    }
}

/// Runs a circuit, and tells which nodes were run.
fn run(circuit: &DbspCircuit, input_data: InputDeltas) -> (Delta, Vec<i64>) {
    let mut state = ExecuteState::Init { input_data };
    let mut ran = Vec::new();
    let mut event = Event::Resume;
    loop {
        match circuit.execute(&mut state, event).unwrap() {
            Action::Run { node_id, deltas, commit } => {
                assert!(!commit);
                ran.push(node_id);
                event = Event::Output(operate(circuit, node_id, deltas));
            }
            Action::Done(out) => return (out, ran),
            other => panic!("{other:?}"),
        }
    }
}

#[test]
fn changes_flow_from_the_inputs_to_the_root() {
    let circuit = compile(&above_ten(scan("t")), unordered());
    let (out, ran) = run(&circuit, inputs(vec![("t", delta(&[(1, 5, 1), (2, 50, 1), (3, 30, -1)]))]));
    assert_eq!(out, delta(&[(2, 50, 1), (3, 30, -1)]));
    assert_eq!(ran, vec![1, 2]);
}

/// Both sides of a merge are run before it, each once.
#[test]
fn every_node_is_run_once() {
    let plan = LogicalPlan::Union {
        inputs: vec![scan("t"), above_ten(scan("u"))],
        all: false,
        schema: schema(),
    };
    let circuit = compile(&plan, unordered());
    let (out, ran) =
        run(&circuit, inputs(vec![("t", delta(&[(1, 1, 1)])), ("u", delta(&[(2, 20, 1)]))]));
    assert_eq!(out, delta(&[(1, 1, 1), (2, 20, 1)]));
    assert_eq!(ran.len(), circuit.nodes.len());
    let mut sorted = ran.clone();
    sorted.sort();
    assert_eq!(sorted, vec![1, 2, 3, 4]);
    assert_eq!(*ran.last().unwrap(), circuit.root.unwrap());
}

#[test]
fn a_table_without_changes_feeds_nothing() {
    let circuit = compile(&above_ten(scan("t")), unordered());
    let (out, _) = run(&circuit, inputs(vec![("other", delta(&[(1, 50, 1)]))]));
    assert_eq!(out, Delta::new());
}

#[test]
fn a_circuit_without_a_root_is_not_run() {
    let circuit = DbspCircuit::new(2, 3, 4, unordered(), None);
    let mut state = ExecuteState::Init { input_data: inputs(vec![]) };
    match circuit.execute(&mut state, Event::Resume) {
        Err(LimboError::ParseError(m)) => assert_eq!(m, "Circuit has no root node"),
        other => panic!("{other:?}"),
    }
}

/// A recursive node is started on its base case and handed the output of its step until it ends.
#[test]
fn a_recursive_node_is_iterated() {
    let circuit = compile(&recursive(), unordered());
    let root = circuit.root.unwrap();
    let mut state = ExecuteState::Init {
        input_data: inputs(vec![("t", delta(&[(1, 5, 1), (2, 50, 1)]))]),
    };
    let mut event = Event::Resume;
    let mut steps = Vec::new();
    let out = loop {
        match circuit.run_circuit(&mut state, event, true).unwrap() {
            Action::Run { node_id, deltas, commit } => {
                assert!(commit);
                event = Event::Output(operate(&circuit, node_id, deltas));
            }
            Action::Initialize { node_id, base } => {
                assert_eq!(node_id, root);
                assert_eq!(base, delta(&[(1, 5, 1), (2, 50, 1)]));
                event = Event::Started(base);
            }
            Action::Iterate { node_id, step } => {
                assert_eq!(node_id, root);
                steps.push(step.clone());
                event = if steps.len() < 2 {
                    Event::Continued(delta(&[(3, 30, 1), (4, 4, 1)]))
                } else {
                    Event::Finished(delta(&[(9, 9, 1)]))
                };
            }
            Action::Done(d) => break d,
            Action::Restore { .. } => panic!("a run that goes on asks for no state"),
        }
    };
    assert_eq!(steps, vec![delta(&[(2, 50, 1)]), delta(&[(3, 30, 1)])]);
    assert_eq!(out, delta(&[(9, 9, 1)]));
}

/// A view's storage: rows by row id, or by the key of an index.
#[derive(Default)]
struct Stored {
    table: BTreeMap<i64, Vec<Value>>,
    index: Vec<(Vec<Value>, Vec<Value>)>,
}

impl Stored {
    fn perform(&mut self, by_key: bool, rowid: i64, key: &Vec<Value>, action: RowAction) -> RowEvent {
        let at = self.index.iter().position(|(k, _)| k == key);
        match action {
            RowAction::Seek => {
                let found = if by_key { at.is_some() } else { self.table.contains_key(&rowid) };
                RowEvent::Sought(if found { SeekResult::Found } else { SeekResult::NotFound })
            }
            RowAction::ReadRecord => RowEvent::Record(if by_key {
                at.map(|i| self.index[i].1.clone())
            } else {
                self.table.get(&rowid).cloned()
            }),
            RowAction::Delete => {
                if by_key {
                    self.index.remove(at.unwrap());
                } else {
                    self.table.remove(&rowid);
                }
                RowEvent::Deleted
            }
            RowAction::Insert(record) => {
                if by_key {
                    self.index.retain(|(k, _)| k != key);
                    self.index.push((key.clone(), record));
                } else {
                    self.table.insert(rowid, record);
                }
                RowEvent::Inserted
            }
            other => panic!("{other:?}"),
        }
    }
}

fn commit(circuit: &DbspCircuit, stored: &mut Stored, input_data: InputDeltas) -> Delta {
    let by_key = !circuit.order_by.columns.is_empty();
    let mut state = CommitState::Init;
    let mut event = CommitEvent::Start(input_data);
    loop {
        match circuit.commit(&mut state, event).unwrap() {
            CommitAction::Operators(Action::Run { node_id, deltas, commit }) => {
                assert!(commit);
                event = CommitEvent::Operators(Event::Output(operate(circuit, node_id, deltas)));
            }
            CommitAction::Operators(other) => panic!("{other:?}"),
            CommitAction::Row { rowid, key, action } => {
                event = CommitEvent::Row(stored.perform(by_key, rowid, &key, action));
            }
            CommitAction::Done(d) => {
                assert!(matches!(state, CommitState::Init));
                return d;
            }
        }
    }
}

fn weighted(id: i64, n: i64, w: i64) -> Vec<Value> {
    let mut record = row(id, n);
    record.push(Value::from_i64(w));
    record
}

#[test]
fn committing_adds_the_changes_to_the_view() {
    let circuit = compile(&above_ten(scan("t")), unordered());
    let mut stored = Stored::default();
    commit(&circuit, &mut stored, inputs(vec![("t", delta(&[(1, 11, 1), (2, 22, 1), (3, 3, 1)]))]));
    assert_eq!(
        stored.table,
        BTreeMap::from([(1, weighted(1, 11, 1)), (2, weighted(2, 22, 1))])
    );
    let out = commit(
        &circuit,
        &mut stored,
        inputs(vec![("t", delta(&[(1, 11, 1), (2, 22, -1), (2, 33, 1)]))]),
    );
    assert_eq!(
        stored.table,
        BTreeMap::from([(1, weighted(1, 11, 2)), (2, weighted(2, 33, 1))])
    );
    assert_eq!(out.len(), 3);
}

/// A view with ORDER BY is stored under the columns it is ordered by, then the row id.
#[test]
fn an_ordered_view_is_committed_under_its_key() {
    let order_by = MatviewOrderBy {
        columns: vec![SortColumn { column: 1, order: SortOrder::Asc, nulls: None }],
    };
    let circuit = compile(&scan("t"), order_by);
    let mut stored = Stored::default();
    commit(&circuit, &mut stored, inputs(vec![("t", delta(&[(1, 30, 1), (2, 20, 1)]))]));
    let mut keys: Vec<Vec<Value>> = stored.index.iter().map(|(k, _)| k.clone()).collect();
    keys.sort_by_key(|k| format!("{k:?}"));
    assert_eq!(
        keys,
        vec![
            vec![Value::from_i64(20), Value::from_i64(2)],
            vec![Value::from_i64(30), Value::from_i64(1)],
        ]
    );
    commit(&circuit, &mut stored, inputs(vec![("t", delta(&[(1, 30, -1)]))]));
    assert_eq!(stored.index.len(), 1);
    assert_eq!(
        stored.index[0].1,
        vec![
            Value::from_i64(20),
            Value::from_i64(2),
            Value::from_i64(2),
            Value::from_i64(1),
        ]
    );
}

#[test]
fn a_circuit_without_a_root_commits_nothing() {
    let circuit = DbspCircuit::new(2, 3, 4, unordered(), None);
    let mut state = CommitState::Init;
    match circuit.commit(&mut state, CommitEvent::Start(inputs(vec![]))) {
        Ok(CommitAction::Done(d)) => assert!(d.is_empty()),
        other => panic!("{other:?}"),
    }
}

/// One state serves commit after commit: each that ends, well or not, leaves it as it began.
#[test]
fn a_commit_leaves_its_state_as_it_began() {
    let circuit = compile(&scan("t"), unordered());
    let mut stored = Stored::default();
    let mut state = CommitState::Init;
    for _ in 0..2 {
        let mut event = CommitEvent::Start(inputs(vec![("t", delta(&[(1, 11, 1)]))]));
        loop {
            match circuit.commit(&mut state, event).unwrap() {
                CommitAction::Operators(Action::Run { node_id, deltas, .. }) => {
                    event =
                        CommitEvent::Operators(Event::Output(operate(&circuit, node_id, deltas)));
                }
                CommitAction::Operators(other) => panic!("{other:?}"),
                CommitAction::Row { rowid, key, action } => {
                    event = CommitEvent::Row(stored.perform(false, rowid, &key, action));
                }
                CommitAction::Done(_) => break,
            }
        }
        assert!(matches!(state, CommitState::Init));
    }
    assert_eq!(stored.table, BTreeMap::from([(1, weighted(1, 11, 2))]));

    let mut event = CommitEvent::Start(inputs(vec![("t", delta(&[(1, 11, 1)]))]));
    let refused = loop {
        match circuit.commit(&mut state, event) {
            Ok(CommitAction::Operators(Action::Run { node_id, deltas, .. })) => {
                event = CommitEvent::Operators(Event::Output(operate(&circuit, node_id, deltas)));
            }
            Ok(CommitAction::Row { action: RowAction::Seek, .. }) => {
                event = CommitEvent::Row(RowEvent::Sought(SeekResult::Found));
            }
            Ok(CommitAction::Row { action: RowAction::ReadRecord, .. }) => {
                event = CommitEvent::Row(RowEvent::Record(None));
            }
            Err(e) => break e,
            other => panic!("{other:?}"),
        }
    };
    assert_eq!(
        refused.message(),
        "Found key TableRowId(1) in storage but could not read record"
    );
    assert!(matches!(state, CommitState::Init));
}

/// Before anything is run, the recursive operators of a stored view are to have their state.
#[test]
fn recursive_operators_get_their_state_back_first() {
    let circuit = compile(&recursive(), unordered());
    let root = circuit.root.unwrap();
    let changes = || inputs(vec![("t", delta(&[(1, 5, 1)]))]);
    let mut state = ExecuteState::Init { input_data: changes() };
    for _ in 0..2 {
        match circuit.execute(&mut state, Event::Resume) {
            Ok(Action::Restore { nodes }) => assert_eq!(nodes, vec![root]),
            other => panic!("{other:?}"),
        }
        assert!(matches!(state, ExecuteState::Init { .. }));
    }
    assert_eq!(circuit.nodes_to_restore(&vec![true]), vec![root]);
    assert_eq!(circuit.nodes_to_restore(&vec![false]), Vec::<i64>::new());
    assert!(matches!(circuit.execute(&mut state, Event::Restored), Ok(Action::Run { .. })));

    let mut commit = CommitState::Init;
    match circuit.commit(&mut commit, CommitEvent::Start(changes())) {
        Ok(CommitAction::Operators(Action::Restore { nodes })) => assert_eq!(nodes, vec![root]),
        other => panic!("{other:?}"),
    }
    assert!(matches!(
        circuit.commit(&mut commit, CommitEvent::Operators(Event::Restored)),
        Ok(CommitAction::Operators(Action::Run { commit: true, .. }))
    ));

    let unstored = DbspCompiler::new(0, 0, 0, unordered(), None).compile(&recursive()).unwrap();
    let mut state = ExecuteState::Init { input_data: changes() };
    assert!(matches!(unstored.execute(&mut state, Event::Resume), Ok(Action::Run { .. })));
}

/// A recursive node that lacks an input stops the run.
#[test]
fn a_run_that_fails_is_over() {
    let mut circuit = compile(&recursive(), unordered());
    let root = circuit.root.unwrap() as usize;
    circuit.nodes[root - 1].inputs.pop();
    let mut state =
        ExecuteState::Init { input_data: inputs(vec![("t", delta(&[(1, 5, 1)]))]) };
    match circuit.execute(&mut state, Event::Restored) {
        Err(LimboError::ParseError(m)) => {
            assert_eq!(m, "Recursive node 'r' must have exactly 3 inputs, found 2");
        }
        other => panic!("{other:?}"),
    }
    assert!(matches!(state, ExecuteState::Uninitialized));
}

/// What leaves is written before what comes, so that an update is not lost.
#[test]
fn deletions_come_first() {
    let mut d = delta(&[(1, 5, 1), (2, 6, -1), (3, 7, 2), (4, 8, -3)]);
    sort_changes(&mut d);
    let weights: Vec<isize> = d.changes.iter().map(|(_, w)| *w).collect();
    assert_eq!(weights, vec![-3, -1, 1, 2]);
}

// Changes by the tables they belong to.

#[test]
fn a_set_of_changes_keeps_the_last_of_each_table() {
    let mut set = DeltaSet::new();
    assert!(set.is_empty());
    set.insert("t".to_string(), delta(&[(1, 1, 1)]));
    set.insert("u".to_string(), delta(&[(2, 2, 1)]));
    set.insert("t".to_string(), delta(&[(3, 3, 1)]));
    assert_eq!(set.get("t"), delta(&[(3, 3, 1)]));
    assert_eq!(set.get("nowhere"), Delta::new());
    assert_eq!(set.find("nowhere"), None);
    assert!(!set.is_empty());
    assert_eq!(set.clone().into_map().len(), 2);
}

/// What is laid over the inputs hides them, name by name.
#[test]
fn the_overlay_comes_before_the_base() {
    let mut deltas = inputs(vec![("t", delta(&[(1, 1, 1)])), ("u", delta(&[(2, 2, 1)]))]);
    deltas.insert("t".to_string(), delta(&[(9, 9, 1)]));
    deltas.insert("v".to_string(), delta(&[(8, 8, 1)]));
    assert_eq!(deltas.get("t"), delta(&[(9, 9, 1)]));
    assert_eq!(deltas.get("u"), delta(&[(2, 2, 1)]));
    deltas.retain_overlay(|name: &String, _: &Delta| name == "v");
    assert_eq!(deltas.get("t"), delta(&[(1, 1, 1)]));
    assert_eq!(deltas.get("v"), delta(&[(8, 8, 1)]));
    deltas.clear_base();
    assert_eq!(deltas.get("u"), Delta::new());
    assert_eq!(deltas.get("v"), delta(&[(8, 8, 1)]));
}

// Views over views.

fn reads(name: &str, sources: &[&str]) -> ViewReads {
    ViewReads {
        name: name.to_string(),
        reads: sources.iter().map(|s| s.to_string()).collect(),
    }
}

fn catalog() -> ViewCatalog {
    let mut cat = ViewCatalog::new();
    cat.add(reads("top", &["middle", "bottom", "t"]));
    cat.add(reads("middle", &["bottom"]));
    cat.add(reads("bottom", &["t"]));
    cat
}

/// The views below a view come deepest first, each once.
#[test]
fn views_below_come_deepest_first() {
    let below = collect_upstream_views(
        &catalog(),
        &vec!["middle".to_string(), "bottom".to_string(), "t".to_string()],
    );
    assert_eq!(below, vec![2, 1]);
}

#[test]
fn views_that_read_each_other_are_listed_once() {
    let mut cat = ViewCatalog::new();
    cat.add(reads("a", &["b"]));
    cat.add(reads("b", &["a"]));
    let mut below = collect_upstream_views(&cat, &vec!["a".to_string()]);
    below.sort();
    assert_eq!(below, vec![0, 1]);
}

/// Each view is fed what the views below it put out.
#[test]
fn views_are_fed_what_those_below_put_out() {
    let cat = catalog();
    let tables = || vec![("t".to_string(), delta(&[(1, 1, 1)]))];
    let mut run =
        UpstreamRun::new(&cat, &vec!["middle".to_string(), "bottom".to_string()]);
    let (at, fed) = run.next(&cat, tables()).unwrap();
    assert_eq!(at, 2);
    assert_eq!(fed.get("t"), delta(&[(1, 1, 1)]));
    run.record(&cat, delta(&[(7, 7, 1)]));
    let (at, fed) = run.next(&cat, tables()).unwrap();
    assert_eq!(at, 1);
    assert_eq!(fed.get("bottom"), delta(&[(7, 7, 1)]));
    run.record(&cat, delta(&[(8, 8, 1)]));
    assert!(run.next(&cat, tables()).is_none());
    let own = gather_inputs(
        tables(),
        &vec!["middle".to_string(), "bottom".to_string(), "t".to_string()],
        &run.outputs,
    );
    assert_eq!(own.get("middle"), delta(&[(8, 8, 1)]));
    assert_eq!(own.get("t"), delta(&[(1, 1, 1)]));
}

#[test]
fn a_transaction_is_as_long_as_its_parts() {
    assert_eq!(total_relevant_tx_len(2, &vec![3, 0, 4]), 9);
}

#[test]
fn a_circuit_knows_its_nodes() {
    let circuit = compile(&above_ten(scan("t")), unordered());
    assert!(matches!(circuit.node(1).unwrap().operator, DbspOperator::Input { .. }));
    assert!(circuit.node(0).is_none());
    assert!(circuit.node(3).is_none());
}
