//! The antijoin as an EXISTS indicator: every left row is shown with whether its key is matched,
//! so that a flip retracts the old row and inserts the new one, in both directions.

use incremental::antijoin::{
    AntijoinEvalState, AntijoinOperator, EmitMode, StateAnswer, StateRequest,
};
use incremental::hash::digest;
use incremental::state::{ScannedRow, StateTable};
use incremental::value::{HashableRow, Value};
use incremental::zset::{Delta, DeltaPair};

fn indicator_operator() -> AntijoinOperator {
    AntijoinOperator::new(1, vec![0], vec![0], EmitMode::Indicator)
}

fn null_pad_operator() -> AntijoinOperator {
    AntijoinOperator::new(1, vec![0], vec![0], EmitMode::NullPad { right_column_count: 2 })
}

fn rows_of(out: Delta) -> Vec<(Vec<Value>, isize)> {
    let mut rows: Vec<(Vec<Value>, isize)> =
        out.changes.into_iter().map(|(row, w)| (row.values, w)).collect();
    rows.sort_by_key(|(v, w)| (format!("{v:?}"), *w));
    rows
}

/// One commit of `(left, right)`, with the output sorted for comparison.
fn commit(
    op: &AntijoinOperator,
    table: &mut StateTable,
    left: Delta,
    right: Delta,
) -> Vec<(Vec<Value>, isize)> {
    rows_of(op.commit(DeltaPair::new(left, right), table))
}

fn l_row(key: i64) -> Delta {
    let mut d = Delta::new();
    d.insert(key, vec![Value::from_i64(key)]);
    d
}

fn r_row(key: i64) -> Delta {
    let mut d = Delta::new();
    d.insert(key + 1000, vec![Value::from_i64(key)]);
    d
}

fn r_row_deleted(key: i64) -> Delta {
    let mut d = Delta::new();
    d.delete(key + 1000, vec![Value::from_i64(key)]);
    d
}

fn tagged(key: i64, matched: bool) -> (Vec<Value>, isize) {
    tagged_w(key, matched, 1)
}

fn tagged_w(key: i64, matched: bool, weight: isize) -> (Vec<Value>, isize) {
    (vec![Value::from_i64(key), Value::from_i64(matched as i64)], weight)
}

#[test]
fn left_row_with_no_match_is_emitted_unmatched() {
    let mut table = StateTable::new();
    let op = indicator_operator();

    let out = commit(&op, &mut table, l_row(1), Delta::new());

    assert_eq!(out, vec![tagged(1, false)]);
}

#[test]
fn left_row_with_a_match_is_emitted_matched() {
    let mut table = StateTable::new();
    let op = indicator_operator();

    let out = commit(&op, &mut table, l_row(1), r_row(1));

    assert_eq!(out, vec![tagged(1, true)]);
}

#[test]
fn a_key_becoming_matched_retracts_the_unmatched_row() {
    let mut table = StateTable::new();
    let op = indicator_operator();
    commit(&op, &mut table, l_row(1), Delta::new());

    let out = commit(&op, &mut table, Delta::new(), r_row(1));

    assert_eq!(
        out,
        vec![tagged_w(1, false, -1), tagged_w(1, true, 1)],
        "a flip must retract the old row and insert the new one"
    );
}

#[test]
fn a_key_becoming_unmatched_retracts_the_matched_row() {
    let mut table = StateTable::new();
    let op = indicator_operator();
    commit(&op, &mut table, l_row(1), r_row(1));

    let out = commit(&op, &mut table, Delta::new(), r_row_deleted(1));

    assert_eq!(out, vec![tagged_w(1, false, 1), tagged_w(1, true, -1)]);
}

/// Only the crossings of zero change the output; a second matching right row leaves every left
/// row's indicator alone.
#[test]
fn a_second_match_emits_nothing() {
    let mut table = StateTable::new();
    let op = indicator_operator();
    commit(&op, &mut table, l_row(1), r_row(1));

    let mut second = Delta::new();
    second.insert(2001, vec![Value::from_i64(1)]);
    let out = commit(&op, &mut table, Delta::new(), second);

    assert_eq!(out, vec![]);
}

#[test]
fn a_null_correlation_key_never_matches() {
    let mut table = StateTable::new();
    let op = indicator_operator();
    let mut left = Delta::new();
    left.insert(1, vec![Value::Null]);
    let mut right = Delta::new();
    right.insert(1001, vec![Value::Null]);

    let out = commit(&op, &mut table, left, right);

    assert_eq!(
        out,
        vec![(vec![Value::Null, Value::from_i64(0)], 1)],
        "SQL says NULL = NULL is unknown, so EXISTS is false"
    );
}

/// A left and a right change arriving at one key in one delta: the left row must see the counter
/// as it is afterwards.
#[test]
fn a_left_and_right_change_at_one_key_in_one_delta() {
    let mut table = StateTable::new();
    let op = indicator_operator();

    let out = commit(&op, &mut table, l_row(7), r_row(7));

    assert_eq!(out, vec![tagged(7, true)]);
}

#[test]
fn removing_a_left_row_retracts_its_indicator() {
    let mut table = StateTable::new();
    let op = indicator_operator();
    commit(&op, &mut table, l_row(1), r_row(1));

    let mut gone = Delta::new();
    gone.delete(1, vec![Value::from_i64(1)]);
    let out = commit(&op, &mut table, gone, Delta::new());

    assert_eq!(out, vec![tagged_w(1, true, -1)]);
}

#[test]
fn an_unmatched_row_is_padded_and_withdrawn_once_it_is_matched() {
    let mut table = StateTable::new();
    let op = null_pad_operator();
    let padded = vec![Value::from_i64(1), Value::Null, Value::Null];

    assert_eq!(commit(&op, &mut table, l_row(1), Delta::new()), vec![(padded.clone(), 1)]);
    assert_eq!(commit(&op, &mut table, Delta::new(), r_row(1)), vec![(padded.clone(), -1)]);
    assert_eq!(commit(&op, &mut table, Delta::new(), r_row_deleted(1)), vec![(padded, 1)]);
}

/// The row that is withdrawn is the row that was shown: both have the row id of their values.
#[test]
fn a_retraction_carries_the_row_id_of_its_insertion() {
    let mut table = StateTable::new();
    let op = indicator_operator();
    let shown = op.commit(DeltaPair::new(l_row(1), Delta::new()), &mut table);
    let flipped = op.commit(DeltaPair::new(Delta::new(), r_row(1)), &mut table);

    let withdrawn: Vec<i64> =
        flipped.changes.iter().filter(|(_, w)| *w < 0).map(|(r, _)| r.rowid).collect();
    let inserted: Vec<i64> =
        flipped.changes.iter().filter(|(_, w)| *w > 0).map(|(r, _)| r.rowid).collect();
    assert_eq!(withdrawn, vec![shown.changes[0].0.rowid]);
    assert_ne!(inserted, withdrawn);
}

/// Evaluating shows what committing would show, and leaves the state alone.
#[test]
fn evaluating_changes_no_state() {
    let mut table = StateTable::new();
    let op = indicator_operator();
    commit(&op, &mut table, l_row(1), Delta::new());

    let seen = rows_of(op.eval(DeltaPair::new(Delta::new(), r_row(1)), &table));
    let again = rows_of(op.eval(DeltaPair::new(Delta::new(), r_row(1)), &table));
    assert_eq!(seen, again);
    assert_eq!(seen, commit(&op, &mut table, Delta::new(), r_row(1)));
}

/// What has been shown adds up to what the rows as they stand would show.
#[test]
fn outputs_add_up_to_the_rows_that_are_left() {
    let mut table = StateTable::new();
    let op = indicator_operator();
    let mut total = Delta::new();
    for (left, right) in [
        (l_row(1), Delta::new()),
        (l_row(2), r_row(1)),
        (Delta::new(), r_row(2)),
        (Delta::new(), r_row_deleted(1)),
    ] {
        total.merge(&op.commit(DeltaPair::new(left, right), &mut table));
    }
    total.consolidate();
    assert_eq!(rows_of(total), vec![tagged(1, false), tagged(2, true)]);
}

/// The padded rows that have been shown and not withdrawn are the left rows without a match.
#[test]
fn padded_rows_add_up_to_the_unmatched_half() {
    let mut table = StateTable::new();
    let op = null_pad_operator();
    let mut total = Delta::new();
    for (left, right) in [
        (l_row(1), Delta::new()),
        (l_row(2), r_row(1)),
        (l_row(3), r_row(2)),
        (l_row(3), r_row_deleted(1)),
    ] {
        total.merge(&op.commit(DeltaPair::new(left, right), &mut table));
    }
    total.consolidate();
    let padded = |key: i64| vec![Value::from_i64(key), Value::Null, Value::Null];
    assert_eq!(rows_of(total), vec![(padded(1), 1), (padded(3), 2)]);
}

/// Keys are taken in the order of their digests, and the output comes in that order.
#[test]
fn keys_are_taken_in_the_order_of_their_digests() {
    let mut table = StateTable::new();
    let op = indicator_operator();
    let mut left = Delta::new();
    let mut right = Delta::new();
    for key in 1..=9 {
        left.merge(&l_row(key));
        right.merge(&r_row(key));
    }
    commit(&op, &mut table, left, Delta::new());
    let out = op.commit(DeltaPair::new(Delta::new(), right), &mut table);
    let mut ordered: Vec<i64> = (1..=9).collect();
    ordered.sort_by_key(|key| digest(&vec![Value::from_i64(*key)]));
    let shown: Vec<(Vec<Value>, isize)> =
        out.changes.into_iter().map(|(row, w)| (row.values, w)).collect();
    let expected: Vec<(Vec<Value>, isize)> = ordered
        .into_iter()
        .flat_map(|key| [tagged_w(key, false, -1), tagged_w(key, true, 1)])
        .collect();
    assert_eq!(shown, expected);
}

/// An evaluation asks for what it has to know and for nothing else.
#[test]
fn an_evaluation_asks_for_counts_and_left_rows() {
    let op = indicator_operator();
    let mut state = op.begin(DeltaPair::new(l_row(2), r_row(1)));
    let mut asked = Vec::new();
    let output = loop {
        if let AntijoinEvalState::Done { output } = state {
            break output;
        }
        let answer = match op.request(&state) {
            StateRequest::Nothing => StateAnswer::Nothing,
            StateRequest::Count { key } => {
                asked.push(format!("count {key:?}"));
                StateAnswer::Count(0)
            }
            StateRequest::LeftRow { key, from } => {
                asked.push(format!("left {key:?} from {from}"));
                StateAnswer::LeftRow(if from == 0 {
                    let row = HashableRow::new(1, vec![Value::from_i64(1)]);
                    Some(ScannedRow { row, weight: 3, next: 5 })
                } else {
                    None
                })
            }
        };
        state = op.process_state(state, answer);
    };
    let (one, two) = (vec![Value::from_i64(1)], vec![Value::from_i64(2)]);
    assert_eq!(
        asked,
        vec![
            format!("count {one:?}"),
            format!("left {one:?} from 0"),
            format!("left {one:?} from 5"),
            format!("count {two:?}"),
        ]
    );
    assert_eq!(
        rows_of(output),
        vec![tagged_w(1, false, -3), tagged_w(1, true, 3), tagged(2, false)]
    );
}

/// The counts are written before the left rows.
#[test]
fn counts_are_written_first() {
    let op = indicator_operator();
    let writes = op.writes(&DeltaPair::new(l_row(2), r_row(1)));
    assert_eq!(writes.len(), 2);
    assert_eq!(writes[0].row, None);
    assert_eq!(writes[0].key, vec![Value::from_i64(1)]);
    assert_eq!(writes[1].row, Some(HashableRow::new(2, vec![Value::from_i64(2)])));
    assert_eq!(writes[1].weight, 1);
    assert_ne!(writes[0].storage_id, writes[1].storage_id);
}
