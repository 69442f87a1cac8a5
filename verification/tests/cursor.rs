//! Reading a materialized view, with the uncommitted changes of a transaction laid over it.

use std::collections::BTreeMap;

use incremental::cursor::{
    MaterializedViewCursor, MoveStep, SeekKey, SeekStep, StorageAction, StorageEvent,
};
use incremental::error::LimboError;
use incremental::order::{MatviewOrderBy, NullsOrder, SortColumn, SortOrder};
use incremental::overlay::SeekOp;
use incremental::value::{HashableRow, Value};
use incremental::write_row::SeekResult;
use incremental::zset::Delta;

/// The stored rows of a view: a search stands at a row, before all, or behind all.
struct Stored {
    rows: BTreeMap<i64, Vec<Value>>,
    at: Option<i64>,
    /// Whether searches are left one row short, as between two leaves.
    between: bool,
    seeks: usize,
}

impl Stored {
    fn first(&self, target: i64, op: SeekOp) -> Option<i64> {
        match op {
            SeekOp::GE { eq_only: true } | SeekOp::LE { eq_only: true } => {
                self.rows.get(&target).map(|_| target)
            }
            SeekOp::GE { .. } => self.rows.range(target..).next().map(|(k, _)| *k),
            SeekOp::GT => self.after(target),
            SeekOp::LE { .. } => self.rows.range(..=target).next_back().map(|(k, _)| *k),
            SeekOp::LT => self.before(target),
        }
    }

    fn after(&self, key: i64) -> Option<i64> {
        self.rows.keys().copied().find(|k| *k > key)
    }

    fn before(&self, key: i64) -> Option<i64> {
        self.rows.keys().rev().copied().find(|k| *k < key)
    }

    fn perform(&mut self, action: StorageAction) -> StorageEvent {
        match action {
            StorageAction::Seek { target, op } => {
                self.seeks += 1;
                let found = self.first(target, op);
                if self.between {
                    let short = found.and_then(|k| {
                        if op.forward() { self.before(k) } else { self.after(k) }
                    });
                    if short.is_some() {
                        self.at = short;
                        return StorageEvent::Sought(SeekResult::TryAdvance);
                    }
                }
                self.at = found;
                StorageEvent::Sought(match found {
                    Some(_) => SeekResult::Found,
                    None => SeekResult::NotFound,
                })
            }
            StorageAction::Rewind => {
                self.at = self.rows.keys().next().copied();
                StorageEvent::Moved
            }
            StorageAction::Next => {
                self.at = self.at.and_then(|k| self.after(k));
                StorageEvent::Moved
            }
            StorageAction::Prev => {
                self.at = self.at.and_then(|k| self.before(k));
                StorageEvent::Moved
            }
            StorageAction::Read => StorageEvent::Entry(
                self.at.map(|k| (HashableRow::new(k, self.rows[&k].clone()), 1)),
            ),
        }
    }
}

/// A view over a table, inside a transaction.
struct TestView {
    stored: Stored,
    tx: Delta,
    cursor: MaterializedViewCursor,
}

fn by_value() -> MatviewOrderBy {
    MatviewOrderBy {
        columns: vec![SortColumn {
            column: 1,
            order: SortOrder::Desc,
            nulls: Some(NullsOrder::Last),
        }],
    }
}

impl TestView {
    fn new() -> Self {
        Self::with(MatviewOrderBy { columns: vec![] }, None)
    }

    fn with(order_by: MatviewOrderBy, limit: Option<i64>) -> Self {
        TestView {
            stored: Stored { rows: BTreeMap::new(), at: None, between: false, seeks: 0 },
            tx: Delta::new(),
            cursor: MaterializedViewCursor::new(order_by, limit),
        }
    }

    fn populate(&mut self, rows: Vec<(i64, i64)>) {
        for (id, value) in rows {
            self.stored.rows.insert(id, vec![Value::from_i64(id), Value::from_i64(value)]);
        }
    }

    fn apply(&mut self, changes: Vec<(i64, Vec<Value>, isize)>) {
        for (rowid, values, weight) in changes {
            if weight > 0 {
                self.tx.insert(rowid, values);
            } else {
                self.tx.delete(rowid, values);
            }
        }
    }

    fn catch_up(&mut self) {
        if self.cursor.needs_changes(self.tx.len()) {
            self.cursor.set_changes(&self.tx, false, self.tx.len());
        }
    }

    fn seek(&mut self, key: SeekKey, op: SeekOp) -> SeekResult {
        self.catch_up();
        let mut event = StorageEvent::Resume;
        loop {
            match self.cursor.seek(&key, op, event).unwrap() {
                SeekStep::Storage(action) => event = self.stored.perform(action),
                SeekStep::Done(result) => return result,
            }
        }
    }

    fn next(&mut self) -> bool {
        let mut event = StorageEvent::Resume;
        loop {
            match self.cursor.next(event) {
                MoveStep::Storage(action) => event = self.stored.perform(action),
                MoveStep::Done(found) => return found,
            }
        }
    }

    fn rewind(&mut self) {
        self.catch_up();
        let mut event = StorageEvent::Resume;
        loop {
            match self.cursor.rewind(event) {
                MoveStep::Storage(action) => event = self.stored.perform(action),
                MoveStep::Done(_) => return,
            }
        }
    }

    fn rowid(&self) -> Option<i64> {
        self.cursor.rowid()
    }

    fn column(&self, col: usize) -> Value {
        self.cursor.column(col)
    }

    fn is_valid(&self) -> bool {
        self.cursor.is_valid()
    }

    /// All rows, from the first.
    fn rows(&mut self) -> Vec<i64> {
        let mut out = Vec::new();
        self.rewind();
        while let Some(rowid) = self.rowid() {
            out.push(rowid);
            self.next();
        }
        out
    }
}

#[test]
fn test_seek_key_exists_in_btree() {
    let mut view = TestView::new();

    // Populate table with test data: rows 1, 3, 5, 7
    view.populate(vec![(1, 10), (3, 30), (5, 50), (7, 70)]);

    // Test 1: Seek exact match (row 3)
    let result = view.seek(SeekKey::TableRowId(3), SeekOp::GE { eq_only: true });
    assert_eq!(result, SeekResult::Found);
    assert_eq!(view.rowid(), Some(3));

    // Test 2: Seek GE (row 4 should find row 5)
    let result = view.seek(SeekKey::TableRowId(4), SeekOp::GE { eq_only: false });
    assert_eq!(result, SeekResult::Found);
    assert_eq!(view.rowid(), Some(5));

    // Test 3: Seek GT (row 3 should find row 5)
    let result = view.seek(SeekKey::TableRowId(3), SeekOp::GT);
    assert_eq!(result, SeekResult::Found);
    assert_eq!(view.rowid(), Some(5));

    // Test 4: Seek LE (row 4 should find row 3)
    let result = view.seek(SeekKey::TableRowId(4), SeekOp::LE { eq_only: false });
    assert_eq!(result, SeekResult::Found);
    assert_eq!(view.rowid(), Some(3));

    // Test 5: Seek LT (row 5 should find row 3)
    let result = view.seek(SeekKey::TableRowId(5), SeekOp::LT);
    assert_eq!(result, SeekResult::Found);
    assert_eq!(view.rowid(), Some(3));
}

#[test]
fn test_seek_key_exists_only_uncommitted() {
    let mut view = TestView::new();

    // Populate table with rows 1, 5, 7
    view.populate(vec![(1, 10), (5, 50), (7, 70)]);

    // Add uncommitted changes: insert rows 3 and 6
    view.apply(vec![
        (3, vec![Value::from_i64(3), Value::from_i64(30)], 1), // Insert row 3
        (6, vec![Value::from_i64(6), Value::from_i64(60)], 1), // Insert row 6
    ]);

    // Test 1: Seek exact match for uncommitted row 3
    let result = view.seek(SeekKey::TableRowId(3), SeekOp::GE { eq_only: true });
    assert_eq!(result, SeekResult::Found);
    assert_eq!(view.rowid(), Some(3));
    assert_eq!(view.column(1), Value::from_i64(30));

    // Test 2: Seek GE for row 2 should find uncommitted row 3
    let result = view.seek(SeekKey::TableRowId(2), SeekOp::GE { eq_only: false });
    assert_eq!(result, SeekResult::Found);
    assert_eq!(view.rowid(), Some(3));

    // Test 3: Seek GT for row 5 should find uncommitted row 6
    let result = view.seek(SeekKey::TableRowId(5), SeekOp::GT);
    assert_eq!(result, SeekResult::Found);
    assert_eq!(view.rowid(), Some(6));
    assert_eq!(view.column(1), Value::from_i64(60));

    // Test 4: Seek LE for row 6 should find uncommitted row 6
    let result = view.seek(SeekKey::TableRowId(6), SeekOp::LE { eq_only: false });
    assert_eq!(result, SeekResult::Found);
    assert_eq!(view.rowid(), Some(6));
}

#[test]
fn test_seek_key_deleted_by_uncommitted() {
    let mut view = TestView::new();

    // Populate table with rows 1, 3, 5, 7
    view.populate(vec![(1, 10), (3, 30), (5, 50), (7, 70)]);

    // Delete row 3 and 5 in uncommitted changes
    view.apply(vec![
        (3, vec![Value::from_i64(3), Value::from_i64(30)], -1), // Delete row 3
        (5, vec![Value::from_i64(5), Value::from_i64(50)], -1), // Delete row 5
    ]);

    // Test 1: Seek exact match for deleted row 3 should not find it
    let result = view.seek(SeekKey::TableRowId(3), SeekOp::GE { eq_only: true });
    assert_eq!(result, SeekResult::NotFound);

    // Test 2: Seek GE for row 2 should skip deleted row 3 and find row 7
    let result = view.seek(SeekKey::TableRowId(2), SeekOp::GE { eq_only: false });
    assert_eq!(result, SeekResult::Found);
    assert_eq!(view.rowid(), Some(7));

    // Test 3: Seek GT for row 1 should skip deleted rows and find row 7
    let result = view.seek(SeekKey::TableRowId(1), SeekOp::GT);
    assert_eq!(result, SeekResult::Found);
    assert_eq!(view.rowid(), Some(7));

    // Test 4: Seek LE for row 5 should find row 1 (skipping deleted 3 and 5)
    let result = view.seek(SeekKey::TableRowId(5), SeekOp::LE { eq_only: false });
    assert_eq!(result, SeekResult::Found);
    assert_eq!(view.rowid(), Some(1));
}

#[test]
fn test_seek_with_updates() {
    let mut view = TestView::new();

    // Populate table with rows 1, 3, 5
    view.populate(vec![(1, 10), (3, 30), (5, 50)]);

    // Update row 3 (delete old + insert new)
    view.apply(vec![
        (3, vec![Value::from_i64(3), Value::from_i64(30)], -1), // Delete old row 3
        (3, vec![Value::from_i64(3), Value::from_i64(35)], 1),  // Insert new row 3
    ]);

    // Test: Seek for updated row 3 should find it
    let result = view.seek(SeekKey::TableRowId(3), SeekOp::GE { eq_only: true });
    assert_eq!(result, SeekResult::Found);
    assert_eq!(view.rowid(), Some(3));
    // The values should be from the uncommitted set (35 instead of 30)
    assert_eq!(view.column(1), Value::from_i64(35));
}

#[test]
fn test_seek_boundary_conditions() {
    let mut view = TestView::new();

    // Populate table with rows 5, 10
    view.populate(vec![(5, 50), (10, 100)]);

    // Test 1: Seek LT for minimum value (should find nothing)
    let result = view.seek(SeekKey::TableRowId(1), SeekOp::LT);
    assert_eq!(result, SeekResult::NotFound);

    // Test 2: Seek GT for maximum value (should find nothing)
    let result = view.seek(SeekKey::TableRowId(15), SeekOp::GT);
    assert_eq!(result, SeekResult::NotFound);

    // Test 3: Seek exact for non-existent key
    let result = view.seek(SeekKey::TableRowId(7), SeekOp::GE { eq_only: true });
    assert_eq!(result, SeekResult::NotFound);
}

#[test]
fn test_seek_complex_uncommitted_weights() {
    let mut view = TestView::new();

    // Populate table with row 5
    view.populate(vec![(5, 50)]);

    // Complex uncommitted changes with multiple operations on same row
    view.apply(vec![
        (5, vec![Value::from_i64(5), Value::from_i64(50)], -1), // Delete original
        (5, vec![Value::from_i64(5), Value::from_i64(51)], 1),  // Insert update 1
        (5, vec![Value::from_i64(5), Value::from_i64(51)], -1), // Delete update 1
        (5, vec![Value::from_i64(5), Value::from_i64(52)], 1),  // Insert update 2
        // Net effect: row 5 exists with value 52
    ]);

    // Seek for row 5 should find it (net weight = 1 from btree + 0 from uncommitted = 1)
    let result = view.seek(SeekKey::TableRowId(5), SeekOp::GE { eq_only: true });
    assert_eq!(result, SeekResult::Found);
    assert_eq!(view.rowid(), Some(5));
    // The final value should be 52 from the last update
    assert_eq!(view.column(1), Value::from_i64(52));
}

#[test]
fn test_seek_affected_by_transaction_state_changes() {
    let mut view = TestView::new();

    // Populate table with rows 1 and 3
    view.populate(vec![(1, 10), (3, 30)]);

    // Seek for row 2 - doesn't exist
    let result = view.seek(SeekKey::TableRowId(2), SeekOp::GE { eq_only: true });
    assert_eq!(result, SeekResult::NotFound);

    // Add row 2 to uncommitted
    view.apply(vec![(2, vec![Value::from_i64(2), Value::from_i64(20)], 1)]);

    // Now seek for row 2 finds it
    let result = view.seek(SeekKey::TableRowId(2), SeekOp::GE { eq_only: true });
    assert_eq!(result, SeekResult::Found);
    assert_eq!(view.rowid(), Some(2));
    assert_eq!(view.column(1), Value::from_i64(20));
}

#[test]
fn test_rewind_btree_first_uncommitted_later() {
    let mut view = TestView::new();

    // Populate table with rows 1, 3, 5
    view.populate(vec![(1, 10), (3, 30), (5, 50)]);

    // Add uncommitted rows 8, 10 (all larger than btree rows)
    view.apply(vec![
        (8, vec![Value::from_i64(8), Value::from_i64(80)], 1),
        (10, vec![Value::from_i64(10), Value::from_i64(100)], 1),
    ]);

    // Initially cursor is not positioned
    assert!(!view.is_valid());

    // Rewind should position at first btree row (1) since uncommitted are all larger
    view.rewind();
    assert!(view.is_valid());
    assert_eq!(view.rowid(), Some(1));
}

#[test]
fn test_rewind_with_uncommitted_first() {
    let mut view = TestView::new();

    // Populate table with rows 5, 7
    view.populate(vec![(5, 50), (7, 70)]);

    // Add uncommitted row 2 (smaller than any btree row)
    view.apply(vec![(2, vec![Value::from_i64(2), Value::from_i64(20)], 1)],
    );

    // Rewind should position at row 2 (uncommitted)
    view.rewind();
    assert!(view.is_valid());
    assert_eq!(view.rowid(), Some(2));
    assert_eq!(view.column(1), Value::from_i64(20));
}

#[test]
fn test_rewind_skip_deleted_first() {
    let mut view = TestView::new();

    // Populate table with rows 1, 3, 5
    view.populate(vec![(1, 10), (3, 30), (5, 50)]);

    // Delete row 1 in uncommitted
    view.apply(vec![(1, vec![Value::from_i64(1), Value::from_i64(10)], -1)]);

    // Rewind should skip deleted row 1 and position at row 3
    view.rewind();
    assert!(view.is_valid());
    assert_eq!(view.rowid(), Some(3));
}

#[test]
fn test_rewind_empty_btree_with_uncommitted() {
    let mut view = TestView::new();

    // Add uncommitted rows (no btree data)
    view.apply(vec![
        (3, vec![Value::from_i64(3), Value::from_i64(30)], 1),
        (7, vec![Value::from_i64(7), Value::from_i64(70)], 1),
    ]);

    // Rewind should find first uncommitted row
    view.rewind();
    assert!(view.is_valid());
    assert_eq!(view.rowid(), Some(3));
    assert_eq!(view.column(1), Value::from_i64(30));
}

#[test]
fn test_rewind_all_deleted() {
    let mut view = TestView::new();

    // Populate table with rows 2, 4
    view.populate(vec![(2, 20), (4, 40)]);

    // Delete all rows in uncommitted
    view.apply(vec![
        (2, vec![Value::from_i64(2), Value::from_i64(20)], -1),
        (4, vec![Value::from_i64(4), Value::from_i64(40)], -1),
    ]);

    // Rewind should find no valid rows
    view.rewind();
    assert!(!view.is_valid());
    assert_eq!(view.rowid(), None);
}

#[test]
fn test_rewind_with_updates() {
    let mut view = TestView::new();

    // Populate table with rows 1, 3
    view.populate(vec![(1, 10), (3, 30)]);

    // Update row 1 (delete + insert with new value)
    view.apply(vec![
        (1, vec![Value::from_i64(1), Value::from_i64(10)], -1),
        (1, vec![Value::from_i64(1), Value::from_i64(15)], 1),
    ]);

    // Rewind should position at row 1 with updated value
    view.rewind();
    assert!(view.is_valid());
    assert_eq!(view.rowid(), Some(1));
    assert_eq!(view.column(1), Value::from_i64(15));
}

// ===== NEXT() TEST SUITE =====

#[test]
fn test_next_btree_only_sequential() {
    let mut view = TestView::new();

    // Populate table with rows 1, 3, 5, 7
    view.populate(vec![(1, 10), (3, 30), (5, 50), (7, 70)]);

    // Start with rewind to position at first row
    view.rewind();
    assert_eq!(view.rowid(), Some(1));

    // Next should move to row 3
    assert!(view.next());
    assert_eq!(view.rowid(), Some(3));

    // Next should move to row 5
    assert!(view.next());
    assert_eq!(view.rowid(), Some(5));

    // Next should move to row 7
    assert!(view.next());
    assert_eq!(view.rowid(), Some(7));

    // Next should reach end
    assert!(!view.next());
    assert!(!view.is_valid());
}

#[test]
fn test_next_uncommitted_only() {
    let mut view = TestView::new();

    // Add uncommitted rows 2, 4, 6
    view.apply(vec![
        (2, vec![Value::from_i64(2), Value::from_i64(20)], 1),
        (4, vec![Value::from_i64(4), Value::from_i64(40)], 1),
        (6, vec![Value::from_i64(6), Value::from_i64(60)], 1),
    ]);

    // Start with rewind to position at first row
    view.rewind();
    assert_eq!(view.rowid(), Some(2));

    // Next should move to row 4
    assert!(view.next());
    assert_eq!(view.rowid(), Some(4));

    // Next should move to row 6
    assert!(view.next());
    assert_eq!(view.rowid(), Some(6));

    // Next should reach end
    assert!(!view.next());
    assert!(!view.is_valid());
}

#[test]
fn test_next_mixed_btree_uncommitted() {
    let mut view = TestView::new();

    // Populate table with rows 1, 5, 9
    view.populate(vec![(1, 10), (5, 50), (9, 90)]);

    // Add uncommitted rows 3, 7
    view.apply(vec![
        (3, vec![Value::from_i64(3), Value::from_i64(30)], 1),
        (7, vec![Value::from_i64(7), Value::from_i64(70)], 1),
    ]);

    // Should iterate in order: 1, 3, 5, 7, 9
    view.rewind();
    assert_eq!(view.rowid(), Some(1));

    assert!(view.next());
    assert_eq!(view.rowid(), Some(3));

    assert!(view.next());
    assert_eq!(view.rowid(), Some(5));

    assert!(view.next());
    assert_eq!(view.rowid(), Some(7));

    assert!(view.next());
    assert_eq!(view.rowid(), Some(9));

    assert!(!view.next());
    assert!(!view.is_valid());
}

#[test]
fn test_next_skip_deleted_rows() {
    let mut view = TestView::new();

    // Populate table with rows 1, 2, 3, 4, 5
    view.populate(vec![(1, 10), (2, 20), (3, 30), (4, 40), (5, 50)]);

    // Delete rows 2 and 4 in uncommitted
    view.apply(vec![
        (2, vec![Value::from_i64(2), Value::from_i64(20)], -1),
        (4, vec![Value::from_i64(4), Value::from_i64(40)], -1),
    ]);

    // Should iterate: 1, 3, 5 (skipping deleted 2 and 4)
    view.rewind();
    assert_eq!(view.rowid(), Some(1));

    assert!(view.next());
    assert_eq!(view.rowid(), Some(3));

    assert!(view.next());
    assert_eq!(view.rowid(), Some(5));

    assert!(!view.next());
    assert!(!view.is_valid());
}

#[test]
fn test_next_with_updates() {
    let mut view = TestView::new();

    // Populate table with rows 1, 3, 5
    view.populate(vec![(1, 10), (3, 30), (5, 50)]);

    // Update row 3 (delete old + insert new)
    view.apply(vec![
        (3, vec![Value::from_i64(3), Value::from_i64(30)], -1),
        (3, vec![Value::from_i64(3), Value::from_i64(35)], 1),
    ]);

    // Should iterate all rows with updated values
    view.rewind();
    assert_eq!(view.rowid(), Some(1));

    assert!(view.next());
    assert_eq!(view.rowid(), Some(3));
    assert_eq!(view.column(1), Value::from_i64(35)); // Updated value

    assert!(view.next());
    assert_eq!(view.rowid(), Some(5));

    assert!(!view.next());
}

#[test]
fn test_next_from_uninitialized() {
    let mut view = TestView::new();

    // Populate table with rows 2, 4
    view.populate(vec![(2, 20), (4, 40)]);

    // Cursor not positioned initially
    assert!(!view.is_valid());

    // Next on uninitialized cursor should return false (matching BTreeCursor behavior)
    assert!(!view.next());
    assert!(!view.is_valid());

    // Position cursor with rewind first
    view.rewind();
    assert_eq!(view.rowid(), Some(2));

    // Now next should work
    assert!(view.next());
    assert_eq!(view.rowid(), Some(4));

    assert!(!view.next());
}

#[test]
fn test_next_empty_table() {
    let mut view = TestView::new();

    // Next on empty table should return false
    assert!(!view.next());
    assert!(!view.is_valid());
}

#[test]
fn test_next_all_deleted() {
    let mut view = TestView::new();

    // Populate table with rows 1, 2, 3
    view.populate(vec![(1, 10), (2, 20), (3, 30)]);

    // Delete all rows
    view.apply(vec![
        (1, vec![Value::from_i64(1), Value::from_i64(10)], -1),
        (2, vec![Value::from_i64(2), Value::from_i64(20)], -1),
        (3, vec![Value::from_i64(3), Value::from_i64(30)], -1),
    ]);

    // Next should find nothing
    assert!(!view.next());
    assert!(!view.is_valid());
}

#[test]
fn test_next_complex_interleaving() {
    let mut view = TestView::new();

    // Populate table with rows 2, 4, 6, 8
    view.populate(vec![(2, 20), (4, 40), (6, 60), (8, 80)]);

    // Complex changes:
    // - Insert row 1
    // - Delete row 2
    // - Insert row 3
    // - Update row 4
    // - Insert row 5
    // - Delete row 6
    // - Insert row 7
    // - Keep row 8 as-is
    // - Insert row 9
    view.apply(vec![
        (1, vec![Value::from_i64(1), Value::from_i64(10)], 1), // Insert 1
        (2, vec![Value::from_i64(2), Value::from_i64(20)], -1), // Delete 2
        (3, vec![Value::from_i64(3), Value::from_i64(30)], 1), // Insert 3
        (4, vec![Value::from_i64(4), Value::from_i64(40)], -1), // Delete old 4
        (4, vec![Value::from_i64(4), Value::from_i64(45)], 1), // Insert new 4
        (5, vec![Value::from_i64(5), Value::from_i64(50)], 1), // Insert 5
        (6, vec![Value::from_i64(6), Value::from_i64(60)], -1), // Delete 6
        (7, vec![Value::from_i64(7), Value::from_i64(70)], 1), // Insert 7
        (9, vec![Value::from_i64(9), Value::from_i64(90)], 1), // Insert 9
    ]);

    // Should iterate: 1, 3, 4(updated), 5, 7, 8, 9
    view.rewind();
    assert_eq!(view.rowid(), Some(1));

    assert!(view.next());
    assert_eq!(view.rowid(), Some(3));

    assert!(view.next());
    assert_eq!(view.rowid(), Some(4));
    assert_eq!(view.column(1), Value::from_i64(45)); // Updated value

    assert!(view.next());
    assert_eq!(view.rowid(), Some(5));

    assert!(view.next());
    assert_eq!(view.rowid(), Some(7));

    assert!(view.next());
    assert_eq!(view.rowid(), Some(8));

    assert!(view.next());
    assert_eq!(view.rowid(), Some(9));

    assert!(!view.next());
    assert!(!view.is_valid());
}

#[test]
fn test_next_after_seek() {
    let mut view = TestView::new();

    // Populate table with rows 1, 3, 5, 7, 9
    view.populate(vec![(1, 10), (3, 30), (5, 50), (7, 70), (9, 90)]);

    // Seek to row 5
    let result = view.seek(SeekKey::TableRowId(5), SeekOp::GE { eq_only: true });
    assert_eq!(result, SeekResult::Found);
    assert_eq!(view.rowid(), Some(5));

    // Next should move to row 7
    assert!(view.next());
    assert_eq!(view.rowid(), Some(7));

    // Next should move to row 9
    assert!(view.next());
    assert_eq!(view.rowid(), Some(9));

    // Next should reach end
    assert!(!view.next());
}

#[test]
fn test_next_multiple_weights_same_row() {
    let mut view = TestView::new();

    // Populate table with row 1
    view.populate(vec![(1, 10)]);

    // Multiple operations on same row:
    view.apply(vec![
        (1, vec![Value::from_i64(1), Value::from_i64(10)], -1), // Delete original
        (1, vec![Value::from_i64(1), Value::from_i64(11)], 1),  // Insert v1
        (1, vec![Value::from_i64(1), Value::from_i64(11)], -1), // Delete v1
        (1, vec![Value::from_i64(1), Value::from_i64(12)], 1),  // Insert v2
        (1, vec![Value::from_i64(1), Value::from_i64(12)], -1), // Delete v2
        // Net weight: 1 (btree) - 1 + 1 - 1 + 1 - 1 = 0 (row deleted)
    ]);

    // Row should be deleted
    assert!(!view.next());
    assert!(!view.is_valid());
}

#[test]
fn test_next_only_uncommitted_large_gaps() {
    let mut view = TestView::new();

    // Add uncommitted rows with large gaps
    view.apply(vec![
        (100, vec![Value::from_i64(100), Value::from_i64(1000)], 1),
        (500, vec![Value::from_i64(500), Value::from_i64(5000)], 1),
        (999, vec![Value::from_i64(999), Value::from_i64(9990)], 1),
    ]);

    // Should iterate through all with large gaps
    view.rewind();
    assert_eq!(view.rowid(), Some(100));

    assert!(view.next());
    assert_eq!(view.rowid(), Some(500));

    assert!(view.next());
    assert_eq!(view.rowid(), Some(999));

    assert!(!view.next());
}

#[test]
fn test_multiple_updates_same_row_single_transaction() {
    let mut view = TestView::new();

    // Populate table with rows 1, 2, 3
    view.populate(vec![(1, 10), (2, 20), (3, 30)]);

    // Multiple successive updates to row 2 in the same transaction
    // 20 -> 25 -> 28 -> 32 (final value should be 32)
    view.apply(vec![
        (2, vec![Value::from_i64(2), Value::from_i64(20)], -1), // Delete original
        (2, vec![Value::from_i64(2), Value::from_i64(25)], 1),  // First update
        (2, vec![Value::from_i64(2), Value::from_i64(25)], -1), // Delete first update
        (2, vec![Value::from_i64(2), Value::from_i64(28)], 1),  // Second update
        (2, vec![Value::from_i64(2), Value::from_i64(28)], -1), // Delete second update
        (2, vec![Value::from_i64(2), Value::from_i64(32)], 1),  // Final update
    ]);

    // Seek to row 2 should find the final value
    let result = view.seek(SeekKey::TableRowId(2), SeekOp::GE { eq_only: true });
    assert_eq!(result, SeekResult::Found);
    assert_eq!(view.rowid(), Some(2));
    assert_eq!(view.column(1), Value::from_i64(32));

    // Next through all rows to verify only final values are seen
    view.rewind();
    assert_eq!(view.rowid(), Some(1));
    assert_eq!(view.column(1), Value::from_i64(10));

    assert!(view.next());
    assert_eq!(view.rowid(), Some(2));
    assert_eq!(view.column(1), Value::from_i64(32)); // Final value

    assert!(view.next());
    assert_eq!(view.rowid(), Some(3));
    assert_eq!(view.column(1), Value::from_i64(30));

    assert!(!view.next());
}

#[test]
fn test_empty_materialized_view_with_uncommitted() {
    let mut view = TestView::new();

    // Don't populate any data - view is created but empty
    // This tests a materialized view that was never populated

    // Add uncommitted rows to empty materialized view
    view.apply(vec![
        (5, vec![Value::from_i64(5), Value::from_i64(50)], 1),
        (10, vec![Value::from_i64(10), Value::from_i64(100)], 1),
        (15, vec![Value::from_i64(15), Value::from_i64(150)], 1),
    ]);

    // Test seek on empty materialized view with uncommitted data
    let result = view.seek(SeekKey::TableRowId(10), SeekOp::GE { eq_only: true });
    assert_eq!(result, SeekResult::Found);
    assert_eq!(view.rowid(), Some(10));

    // Test GT seek
    let result = view.seek(SeekKey::TableRowId(7), SeekOp::GT);
    assert_eq!(result, SeekResult::Found);
    assert_eq!(view.rowid(), Some(10));

    // Test rewind and next
    view.rewind();
    assert_eq!(view.rowid(), Some(5));

    assert!(view.next());
    assert_eq!(view.rowid(), Some(10));

    assert!(view.next());
    assert_eq!(view.rowid(), Some(15));

    assert!(!view.next());
}

#[test]
fn test_exact_match_btree_uncommitted_same_rowid_different_values() {
    let mut view = TestView::new();

    // Populate table with rows 1, 3, 5
    view.populate(vec![(1, 10), (3, 30), (5, 50)]);

    // Add uncommitted row 3 with different value (not a delete+insert, just insert)
    // This simulates a case where uncommitted has a new version of row 3
    view.apply(vec![
        (3, vec![Value::from_i64(3), Value::from_i64(35)], 1), // New version with positive weight
    ]);

    // Exact match seek for row 3 should find the uncommitted version (35)
    // because when both exist with positive weight, uncommitted takes precedence
    let result = view.seek(SeekKey::TableRowId(3), SeekOp::GE { eq_only: true });
    assert_eq!(result, SeekResult::Found);
    assert_eq!(view.rowid(), Some(3));

    // This test verifies which value we get when both btree and uncommitted
    // have the same rowid with positive weights
    // The expected behavior needs to be defined - typically uncommitted wins
    // or they get merged based on the DBSP semantics
}

#[test]
fn test_boundary_value_seeks() {
    let mut view = TestView::new();

    // Populate table with some normal values
    view.populate(vec![(100, 1000), (200, 2000)]);

    // Add uncommitted rows at extreme positions
    view.apply(vec![
        (
        i64::MIN + 1,
        vec![Value::from_i64(i64::MIN + 1), Value::from_i64(-999)],
        1,
        ),
        (
        i64::MAX - 1,
        vec![Value::from_i64(i64::MAX - 1), Value::from_i64(999)],
        1,
        ),
    ]);

    // Test 1: Seek GT with i64::MAX should find nothing
    let result = view.seek(SeekKey::TableRowId(i64::MAX), SeekOp::GT);
    assert_eq!(result, SeekResult::NotFound);

    // Test 2: Seek LT with i64::MIN should find nothing
    let result = view.seek(SeekKey::TableRowId(i64::MIN), SeekOp::LT);
    assert_eq!(result, SeekResult::NotFound);

    // Test 3: Seek GE with i64::MAX - 1 should find our extreme row
    let result = view.seek( SeekKey::TableRowId(i64::MAX - 1), SeekOp::GE { eq_only: false }, );
    assert_eq!(result, SeekResult::Found);
    assert_eq!(view.rowid(), Some(i64::MAX - 1));

    // Test 4: Seek LE with i64::MIN + 1 should find our extreme low row
    let result = view.seek( SeekKey::TableRowId(i64::MIN + 1), SeekOp::LE { eq_only: false }, );
    assert_eq!(result, SeekResult::Found);
    assert_eq!(view.rowid(), Some(i64::MIN + 1));

    // Test 5: Seek GT from i64::MIN should find the smallest row
    let result = view.seek(SeekKey::TableRowId(i64::MIN), SeekOp::GT);
    assert_eq!(result, SeekResult::Found);
    assert_eq!(view.rowid(), Some(i64::MIN + 1));

    // Test 6: Seek LT from i64::MAX should find the largest row
    let result = view.seek(SeekKey::TableRowId(i64::MAX), SeekOp::LT);
    assert_eq!(result, SeekResult::Found);
    assert_eq!(view.rowid(), Some(i64::MAX - 1));
}

#[test]
fn test_next_concurrent_btree_uncommitted_advance() {
    let mut view = TestView::new();

    // Populate table with rows 1, 2, 3, 4, 5
    view.populate(vec![(1, 10), (2, 20), (3, 30), (4, 40), (5, 50)]);

    // Delete some btree rows and add replacements in uncommitted
    view.apply(vec![
        (2, vec![Value::from_i64(2), Value::from_i64(20)], -1), // Delete btree row 2
        (2, vec![Value::from_i64(2), Value::from_i64(25)], 1),  // Replace with new value
        (4, vec![Value::from_i64(4), Value::from_i64(40)], -1), // Delete btree row 4
    ]);

    // Should iterate: 1, 2(new), 3, 5
    view.rewind();
    assert_eq!(view.rowid(), Some(1));

    assert!(view.next());
    assert_eq!(view.rowid(), Some(2));
    assert_eq!(view.column(1), Value::from_i64(25)); // New value

    assert!(view.next());
    assert_eq!(view.rowid(), Some(3));

    assert!(view.next());
    assert_eq!(view.rowid(), Some(5));

    assert!(!view.next());
}

#[test]
fn test_transaction_state_changes_mid_iteration() {
    let mut view = TestView::new();

    // Populate table with rows 1, 3, 5
    view.populate(vec![(1, 10), (3, 30), (5, 50)]);

    // Start iteration
    view.rewind();
    assert_eq!(view.rowid(), Some(1));

    // Move to next row
    assert!(view.next());
    assert_eq!(view.rowid(), Some(3));

    // Now add new uncommitted changes mid-iteration
    view.apply(vec![
        (2, vec![Value::from_i64(2), Value::from_i64(20)], 1), // Insert before current
        (4, vec![Value::from_i64(4), Value::from_i64(40)], 1), // Insert after current
        (6, vec![Value::from_i64(6), Value::from_i64(60)], 1), // Insert at end
    ]);

    // Continue iteration - cursor continues from where it was, sees row 5 next
    // (new changes are only visible after rewind/seek)
    assert!(view.next());
    assert_eq!(view.rowid(), Some(5));

    // No more rows in original iteration
    assert!(!view.next());

    // Rewind and verify we see all rows including the newly added ones
    view.rewind();
    assert_eq!(view.rowid(), Some(1));

    assert!(view.next());
    assert_eq!(view.rowid(), Some(2));

    assert!(view.next());
    assert_eq!(view.rowid(), Some(3));

    assert!(view.next());
    assert_eq!(view.rowid(), Some(4));

    assert!(view.next());
    assert_eq!(view.rowid(), Some(5));

    assert!(view.next());
    assert_eq!(view.rowid(), Some(6));

    assert!(!view.next());
}

#[test]
fn test_rewind_after_failed_seek() {
    let mut view = TestView::new();

    // Populate table with rows 1, 3, 5
    view.populate(vec![(1, 10), (3, 30), (5, 50)]);

    // Add uncommitted row 2
    view.apply(vec![(2, vec![Value::from_i64(2), Value::from_i64(20)], 1)]);

    // Seek to non-existent row 4 with exact match
    assert_eq!(
        view.seek(SeekKey::TableRowId(4), SeekOp::GE { eq_only: true }),
        SeekResult::NotFound
    );
    assert!(!view.is_valid());

    // Rewind should work correctly after failed seek
    view.rewind();
    assert!(view.is_valid());
    assert_eq!(view.rowid(), Some(1));

    // Verify we can iterate through all rows
    assert!(view.next());
    assert_eq!(view.rowid(), Some(2));

    assert!(view.next());
    assert_eq!(view.rowid(), Some(3));

    assert!(view.next());
    assert_eq!(view.rowid(), Some(5));

    assert!(!view.next());

    // Try another failed seek (GT on maximum value)
    assert_eq!(
        view.seek(SeekKey::TableRowId(5), SeekOp::GT),
        SeekResult::NotFound
    );
    assert!(!view.is_valid());

    // Rewind again
    view.rewind();
    assert!(view.is_valid());
    assert_eq!(view.rowid(), Some(1));
}

/// A search that is interrupted while storage is being moved on does not search again.
#[test]
fn test_seek_not_repeated_after_io_during_try_advance() {
    let mut cursor = MaterializedViewCursor::new(MatviewOrderBy { columns: vec![] }, None);
    let op = SeekOp::LE { eq_only: false };
    let mut seek_count = 0;
    let mut prev_count = 0;

    let step = cursor.do_seek(5, op, StorageEvent::Resume);
    assert_eq!(step, SeekStep::Storage(StorageAction::Seek { target: 5, op }));
    seek_count += 1;
    let step = cursor.do_seek(5, op, StorageEvent::Sought(SeekResult::TryAdvance));
    assert_eq!(step, SeekStep::Storage(StorageAction::Prev));
    prev_count += 1;
    assert_eq!(seek_count, 1, "seek should be called exactly once before IO");
    assert_eq!(prev_count, 1, "prev should be called once (returned IO)");

    // The move has not come about yet: asking again asks for the move, not for the search.
    let mut event = StorageEvent::Resume;
    let result = loop {
        match cursor.do_seek(5, op, event) {
            SeekStep::Storage(StorageAction::Seek { .. }) => {
                seek_count += 1;
                event = StorageEvent::Sought(SeekResult::Found);
            }
            SeekStep::Storage(StorageAction::Prev) => event = StorageEvent::Moved,
            SeekStep::Storage(StorageAction::Read) => {
                let row = HashableRow::new(1, vec![Value::from_i64(1), Value::from_i64(10)]);
                event = StorageEvent::Entry(Some((row, 1)));
            }
            SeekStep::Storage(other) => panic!("{other:?}"),
            SeekStep::Done(r) => break r,
        }
    };

    assert_eq!(result, SeekResult::Found);
    assert_eq!(cursor.rowid(), Some(1));
    assert_eq!(
        seek_count, 1,
        "seek should only be called once, but was called {seek_count} times (redundant seek after IO during TryAdvance)"
    );
}

/// Searches that are left between two leaves find the same rows.
#[test]
fn searches_between_leaves_find_the_same_rows() {
    let mut view = TestView::new();
    view.stored.between = true;
    view.populate(vec![(1, 10), (3, 30), (5, 50), (7, 70)]);
    view.apply(vec![
        (3, vec![Value::from_i64(3), Value::from_i64(30)], -1),
        (4, vec![Value::from_i64(4), Value::from_i64(40)], 1),
    ]);
    assert_eq!(view.rows(), vec![1, 4, 5, 7]);
    assert_eq!(
        view.seek(SeekKey::TableRowId(6), SeekOp::LE { eq_only: false }),
        SeekResult::Found
    );
    assert_eq!(view.rowid(), Some(5));
}

/// A limited view shows no more rows than its limit, whatever the transaction adds.
#[test]
fn a_limit_is_kept() {
    let mut view = TestView::with(MatviewOrderBy { columns: vec![] }, Some(2));
    view.populate(vec![(1, 10), (3, 30), (5, 50)]);
    view.apply(vec![(2, vec![Value::from_i64(2), Value::from_i64(20)], 1)]);
    assert_eq!(view.rows(), vec![1, 2]);
    assert_eq!(view.rows(), vec![1, 2]);
}

#[test]
fn a_limit_of_none_shows_nothing() {
    let mut view = TestView::with(MatviewOrderBy { columns: vec![] }, Some(0));
    view.populate(vec![(1, 10)]);
    assert_eq!(view.rows(), Vec::<i64>::new());
}

/// Where there are fewer rows than the limit, all are shown.
#[test]
fn a_limit_beyond_the_rows_shows_them_all() {
    let mut view = TestView::with(MatviewOrderBy { columns: vec![] }, Some(9));
    view.populate(vec![(1, 10), (3, 30)]);
    view.apply(vec![
        (1, vec![Value::from_i64(1), Value::from_i64(10)], -1),
        (2, vec![Value::from_i64(2), Value::from_i64(20)], 1),
    ]);
    assert_eq!(view.rows(), vec![2, 3]);
}

#[test]
fn an_ordered_view_is_limited_in_its_order() {
    let mut view = TestView::with(by_value(), Some(2));
    view.populate(vec![(1, 10), (3, 30), (5, 50)]);
    view.apply(vec![(2, vec![Value::from_i64(2), Value::from_i64(45)], 1)]);
    assert_eq!(view.rows(), vec![5, 2]);
}

/// A view with ORDER BY shows its rows in that order, those of the transaction among them.
#[test]
fn an_ordered_view_is_read_in_its_order() {
    let mut view = TestView::with(by_value(), None);
    view.populate(vec![(1, 10), (3, 30), (5, 50)]);
    view.apply(vec![
        (3, vec![Value::from_i64(3), Value::from_i64(30)], -1),
        (2, vec![Value::from_i64(2), Value::from_i64(45)], 1),
        (4, vec![Value::from_i64(4), Value::Null], 1),
    ]);
    assert_eq!(view.rows(), vec![5, 2, 1, 4]);
    assert_eq!(view.rows(), vec![5, 2, 1, 4], "a second walk shows the same");
}

#[test]
fn an_ordered_view_is_not_searched_by_row_id() {
    let mut view = TestView::with(by_value(), None);
    assert_eq!(
        view.cursor.seek(&SeekKey::TableRowId(1), SeekOp::GT, StorageEvent::Resume),
        Err(LimboError::ParseError(
            "Rowid-keyed seek is not supported on materialized views with ORDER BY".to_string()
        ))
    );
}

#[test]
fn a_view_is_not_searched_by_an_index_key() {
    let mut view = TestView::new();
    assert_eq!(
        view.cursor.seek(&SeekKey::IndexKey(vec![]), SeekOp::GT, StorageEvent::Resume),
        Err(LimboError::ParseError(
            "Cannot search a materialized view with an index key".to_string()
        ))
    );
}

/// A whole result stands for the view by itself: what is stored is not shown beside it.
#[test]
fn a_whole_result_stands_for_the_view() {
    let mut view = TestView::with(MatviewOrderBy { columns: vec![] }, Some(1));
    view.populate(vec![(1, 10), (3, 30)]);
    let mut whole = Delta::new();
    whole.insert(2, vec![Value::from_i64(2), Value::from_i64(20)]);
    whole.insert(9, vec![Value::from_i64(9), Value::from_i64(90)]);
    view.cursor.set_changes(&whole, true, whole.len());
    view.tx = whole;
    assert_eq!(view.rows(), vec![2, 9]);
}

/// A whole result without rows shows none, and storage is not asked.
#[test]
fn a_whole_result_without_rows_shows_none() {
    for order_by in [by_value(), MatviewOrderBy { columns: vec![] }] {
        let mut view = TestView::with(order_by, None);
        view.populate(vec![(1, 10), (3, 30)]);
        view.cursor.set_changes(&Delta::new(), true, 0);
        assert_eq!(view.rows(), Vec::<i64>::new());
        assert_eq!(view.stored.seeks, 0);
        assert_eq!(view.stored.at, None);
        assert!(!view.next());
    }
}

#[test]
fn a_column_that_is_not_there_is_null() {
    let mut view = TestView::new();
    view.populate(vec![(1, 10)]);
    assert_eq!(view.column(0), Value::Null);
    view.rewind();
    assert_eq!(view.column(1), Value::from_i64(10));
    assert_eq!(view.column(2), Value::Null);
}
