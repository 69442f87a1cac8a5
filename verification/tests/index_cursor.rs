//! Reading an index on a materialized view, with the changes of a transaction merged in.

use incremental::error::LimboError;
use incremental::index_cursor::{
    no_rowid_lookup, not_an_index_key, write_through_the_overlay, IndexAction, IndexEvent,
    IndexInfo, MaterializedViewIndexCursor,
};
use incremental::order::{Collation, KeyInfo, SortOrder};
use incremental::overlay::{RowKeyZSet, SeekOp};
use incremental::value::{HashableRow, Value};
use incremental::write_row::SeekResult;
use incremental::zset::Delta;

fn integer(i: i64) -> Value {
    Value::from_i64(i)
}

fn info() -> IndexInfo {
    let key = || KeyInfo { sort_order: SortOrder::Asc, collation: Collation::Binary };
    IndexInfo { key_info: vec![key(), key()], has_rowid: true }
}

/// An index over the second column of a view; an entry is that column and the row id.
struct View {
    stored: Vec<Vec<Value>>,
    at: Option<usize>,
    cursor: MaterializedViewIndexCursor,
}

fn entry(n: i64, id: i64) -> Vec<Value> {
    vec![integer(n), integer(id)]
}

impl View {
    fn new(stored: &[(i64, i64)], changes: &[(i64, i64, isize)], full: bool) -> Self {
        let mut d = Delta::new();
        for (id, n, w) in changes {
            d.push(HashableRow::new(*id, vec![integer(*id), integer(*n)]), *w);
        }
        let mut cursor = MaterializedViewIndexCursor::new(info(), vec![1]);
        cursor.set_changes(&RowKeyZSet::from_delta(&d), full).unwrap();
        View {
            stored: stored.iter().map(|(n, id)| entry(*n, *id)).collect(),
            at: None,
            cursor,
        }
    }

    fn number(v: &Value) -> i64 {
        match v {
            Value::Numeric(incremental::value::Numeric::Integer(i)) => *i,
            other => panic!("{other:?}"),
        }
    }

    fn perform(&mut self, action: IndexAction) -> IndexEvent {
        let len = self.stored.len();
        match action {
            IndexAction::Rewind => {
                self.at = if len > 0 { Some(0) } else { None };
                IndexEvent::Moved
            }
            IndexAction::Last => {
                self.at = len.checked_sub(1);
                IndexEvent::Moved
            }
            IndexAction::Next => {
                self.at = self.at.and_then(|i| if i + 1 < len { Some(i + 1) } else { None });
                IndexEvent::Moved
            }
            IndexAction::Prev => {
                self.at = self.at.and_then(|i| i.checked_sub(1));
                IndexEvent::Moved
            }
            IndexAction::Seek { op } => {
                let k = Self::number(&self.cursor.seek_key[0]);
                let keys: Vec<i64> = self.stored.iter().map(|e| Self::number(&e[0])).collect();
                self.at = match op {
                    SeekOp::GE { eq_only: true } => keys.iter().position(|n| *n == k),
                    SeekOp::GE { .. } => keys.iter().position(|n| *n >= k),
                    SeekOp::GT => keys.iter().position(|n| *n > k),
                    SeekOp::LE { .. } => keys.iter().rposition(|n| *n <= k),
                    SeekOp::LT => keys.iter().rposition(|n| *n < k),
                };
                IndexEvent::Sought(match self.at {
                    Some(_) => SeekResult::Found,
                    None => SeekResult::NotFound,
                })
            }
            IndexAction::Read => IndexEvent::Record(self.at.map(|i| self.stored[i].clone())),
        }
    }

    fn drive(&mut self, first: Option<IndexAction>, forward: bool) {
        let mut action = first;
        while let Some(a) = action {
            let event = self.perform(a);
            action = if forward { self.cursor.next(event) } else { self.cursor.prev(event) };
        }
    }

    fn go_on(&mut self, first: Option<IndexAction>, forward: bool) {
        let mut action = first;
        while let Some(a) = action {
            let event = self.perform(a);
            action = self.cursor.go_on(forward, event);
        }
    }

    fn rewind(&mut self) {
        let a = self.cursor.rewind();
        self.go_on(a, true);
    }

    fn last(&mut self) {
        let a = self.cursor.last();
        self.go_on(a, false);
    }

    fn next(&mut self) {
        let a = self.cursor.next(IndexEvent::Resume);
        self.drive(a, true);
    }

    fn prev(&mut self) {
        let a = self.cursor.prev(IndexEvent::Resume);
        self.drive(a, false);
    }

    fn seek(&mut self, n: i64, op: SeekOp) -> SeekResult {
        let a = self.cursor.seek(vec![integer(n)], op);
        self.drive(a, op.forward());
        self.cursor.finish_seek(op)
    }

    fn forward(&mut self) -> Vec<Vec<Value>> {
        let mut out = Vec::new();
        self.rewind();
        while let Some(e) = self.cursor.record() {
            out.push(e);
            self.next();
        }
        out
    }

    fn backward(&mut self) -> Vec<Vec<Value>> {
        let mut out = Vec::new();
        self.last();
        while let Some(e) = self.cursor.record() {
            out.push(e);
            self.prev();
        }
        out
    }
}

/// The entries of both sides come in the order of the index, those that were taken away left out.
#[test]
fn entries_are_merged_in_order() {
    let mut view = View::new(
        &[(10, 1), (20, 2), (30, 3), (40, 4)],
        &[(2, 20, -1), (5, 25, 1), (6, 5, 1), (7, 50, 1)],
        false,
    );
    let expected =
        vec![entry(5, 6), entry(10, 1), entry(25, 5), entry(30, 3), entry(40, 4), entry(50, 7)];
    assert_eq!(view.forward(), expected);
    let mut reversed = expected;
    reversed.reverse();
    assert_eq!(view.backward(), reversed);
}

/// Moving to an end keeps the null flag; moving on takes it away.
#[test]
fn a_null_row_is_kept_over_a_move_to_an_end() {
    let mut view = View::new(&[(10, 1), (20, 2)], &[(3, 15, 1)], false);
    view.cursor.set_null_flag(true);
    view.rewind();
    assert!(view.cursor.get_null_flag());
    assert_eq!(view.cursor.record(), None);
    assert_eq!(view.cursor.rowid(), Ok(None));
    view.next();
    assert!(!view.cursor.get_null_flag());
    assert_eq!(view.cursor.record(), Some(entry(15, 3)));
    view.cursor.set_null_flag(true);
    view.last();
    assert!(view.cursor.get_null_flag());
    view.prev();
    assert!(!view.cursor.get_null_flag());
    assert_eq!(view.cursor.record(), Some(entry(15, 3)));
}

/// A search keeps its key while storage is read, and an exact one holds what it comes to against it.
#[test]
fn a_search_keeps_its_key_to_the_end() {
    let mut view = View::new(&[(10, 1), (20, 2), (30, 3)], &[(2, 20, -1)], false);
    let op = SeekOp::GE { eq_only: false };
    let mut action = view.cursor.seek(vec![integer(20)], op);
    while let Some(a) = action {
        assert_eq!(view.cursor.seek_key, vec![integer(20)]);
        assert_eq!(view.cursor.seek_prefix, 1);
        let event = view.perform(a);
        action = view.cursor.next(event);
    }
    assert_eq!(view.cursor.record(), Some(entry(30, 3)));
    assert_eq!(view.cursor.finish_seek(SeekOp::GE { eq_only: true }), SeekResult::NotFound);
    assert!(!view.cursor.has_record());
}

/// A search comes to the first entry in its direction, wherever it lies.
#[test]
fn a_search_comes_to_the_nearest_entry() {
    let mut view = View::new(
        &[(10, 1), (20, 2), (30, 3)],
        &[(2, 20, -1), (5, 25, 1), (6, 5, 1)],
        false,
    );
    for (n, op, expected) in [
        (5, SeekOp::GE { eq_only: false }, Some(entry(5, 6))),
        (6, SeekOp::GE { eq_only: false }, Some(entry(10, 1))),
        (10, SeekOp::GT, Some(entry(25, 5))),
        (30, SeekOp::GT, None),
        (24, SeekOp::LE { eq_only: false }, Some(entry(10, 1))),
        (10, SeekOp::LT, Some(entry(5, 6))),
        (5, SeekOp::LT, None),
        (99, SeekOp::LE { eq_only: false }, Some(entry(30, 3))),
    ] {
        let found = view.seek(n, op);
        assert_eq!(view.cursor.record(), expected, "{n} {op:?}");
        assert_eq!(found == SeekResult::Found, expected.is_some());
    }
}

/// Of a stored and an added entry that compare equal, a walk in either direction shows the stored one
/// first.
#[test]
fn equal_entries_are_shown_stored_first() {
    let text = |t: &str| Value::Text(t.to_string());
    let key = |collation: Collation| KeyInfo { sort_order: SortOrder::Asc, collation };
    let index = IndexInfo {
        key_info: vec![key(Collation::NoCase), key(Collation::Binary)],
        has_rowid: true,
    };
    let mut d = Delta::new();
    d.push(HashableRow::new(1, vec![integer(1), text("B")]), 1);
    d.push(HashableRow::new(2, vec![integer(2), text("a")]), 1);
    let mut view = View::new(&[], &[], false);
    view.cursor = MaterializedViewIndexCursor::new(index, vec![1]);
    view.cursor.set_changes(&RowKeyZSet::from_delta(&d), false).unwrap();
    view.stored = vec![vec![text("b"), integer(1)], vec![text("c"), integer(3)]];
    let (a, b) = (vec![text("a"), integer(2)], vec![text("b"), integer(1)]);
    let (added, c) = (vec![text("B"), integer(1)], vec![text("c"), integer(3)]);
    assert_eq!(view.forward(), vec![a.clone(), b.clone(), added.clone(), c.clone()]);
    assert_eq!(view.backward(), vec![c, b, added, a]);
}

#[test]
fn a_whole_result_stands_by_itself() {
    let mut view = View::new(&[(10, 1)], &[(5, 25, 1)], true);
    assert_eq!(view.forward(), vec![entry(25, 5)]);
}

#[test]
fn an_index_is_searched_by_its_key() {
    let mut view =
        View::new(&[(10, 1), (20, 2), (30, 3)], &[(2, 20, -1), (5, 25, 1)], false);
    assert_eq!(view.seek(20, SeekOp::GE { eq_only: true }), SeekResult::NotFound);
    assert_eq!(view.seek(25, SeekOp::GE { eq_only: true }), SeekResult::Found);
    assert_eq!(view.cursor.rowid(), Ok(Some(5)));
    assert_eq!(view.seek(11, SeekOp::GE { eq_only: false }), SeekResult::Found);
    assert_eq!(view.cursor.record(), Some(entry(25, 5)));
    view.next();
    assert_eq!(view.cursor.record(), Some(entry(30, 3)));
    assert_eq!(view.seek(30, SeekOp::LT), SeekResult::Found);
    assert_eq!(view.cursor.record(), Some(entry(25, 5)));
    assert_eq!(view.seek(30, SeekOp::GT), SeekResult::NotFound);
    assert!(!view.cursor.has_record());
}

#[test]
fn a_cursor_stands_at_an_entry_or_none() {
    let mut view = View::new(&[(10, 1)], &[], false);
    assert!(!view.cursor.has_record());
    view.rewind();
    assert!(view.cursor.has_record());
    assert!(!view.cursor.is_empty());
    assert!(view.cursor.has_rowid());
    view.cursor.set_null_flag(true);
    assert!(view.cursor.get_null_flag());
    view.cursor.set_has_record(true);
    view.cursor.set_null_flag(false);
    assert!(view.cursor.has_record());
    view.cursor.set_has_record(false);
    assert!(!view.cursor.has_record());
}

#[test]
fn a_key_beyond_the_row_is_refused() {
    let mut d = Delta::new();
    d.insert(1, vec![integer(1)]);
    let mut cursor = MaterializedViewIndexCursor::new(info(), vec![4]);
    assert_eq!(
        cursor.set_changes(&RowKeyZSet::from_delta(&d), false),
        Err(LimboError::InternalError(
            "matview index key position 4 out of range for a 1-column row".to_string()
        ))
    );
}

#[test]
fn an_entry_must_end_in_a_row_id() {
    let mut view = View::new(&[], &[], false);
    view.stored = vec![vec![integer(1), Value::Null]];
    view.rewind();
    match view.cursor.rowid() {
        Err(LimboError::Corrupt(m)) => assert_eq!(
            m,
            "index on materialized view: entry ends in Some(Null), not a rowid"
        ),
        other => panic!("{other:?}"),
    }
    view.stored = vec![vec![]];
    view.rewind();
    match view.cursor.rowid() {
        Err(LimboError::Corrupt(m)) => {
            assert_eq!(m, "index on materialized view: entry ends in None, not a rowid")
        }
        other => panic!("{other:?}"),
    }
}

#[test]
fn an_index_on_a_view_is_only_read() {
    assert!(write_through_the_overlay("insert").message().contains("insert"));
    assert_eq!(
        no_rowid_lookup().message(),
        "a materialized view's index has no rowid lookup"
    );
    assert_eq!(
        not_an_index_key().message(),
        "a materialized view's index can only be searched with an index key"
    );
}
