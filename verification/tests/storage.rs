//! What is kept in storage: rows with their weights, and the state of operators.

use incremental::error::LimboError;
use incremental::layout::{build_composite_keys, read_btree_rows, read_view_row};
use incremental::order::{MatviewOrderBy, SortColumn, SortOrder};
use incremental::probe::{
    deserialize_l_row, serialize_l_row, CountProbe, ProbeAction, ProbeEvent,
};
use incremental::snapshot::read_view_entry;
use incremental::state::{generate_storage_id, StateTable};
use incremental::value::{HashableRow, Value};
use incremental::write_row::{
    RowAction, RowEvent, SeekResult, WriteRowView, WriteRowViewIndex,
};
use incremental::zset::Delta;

fn integer(i: i64) -> Value {
    Value::from_i64(i)
}

/// Blobs of sixteen bytes, as keys are hashed to.
fn keys(n: usize) -> Vec<[u8; 16]> {
    let mut out = Vec::with_capacity(n);
    let mut state: u64 = 0x243f_6a88_85a3_08d3;
    for _ in 0..n {
        let mut b = [0u8; 16];
        for chunk in b.chunks_mut(8) {
            state = state
                .wrapping_mul(6364136223846793005)
                .wrapping_add(1442695040888963407);
            chunk.copy_from_slice(&state.to_le_bytes());
        }
        out.push(b);
    }
    out
}

/// Writing every key a second time must find it and add to its weight.
#[test]
fn eq_only_index_seek_finds_every_present_key() {
    let mut table = StateTable::new();
    let keys = keys(400);
    for zset in &keys {
        table.write_row(131072, &vec![Value::Blob(zset.to_vec())], &None, 1);
    }
    assert_eq!(table.entries.len(), keys.len(), "index lost entries");

    for zset in &keys {
        table.write_row(131072, &vec![Value::Blob(zset.to_vec())], &None, 1);
    }

    let wrong_weight = table.entries.iter().filter(|e| e.weight != 2).count();
    assert_eq!(table.entries.len(), keys.len(), "duplicate state rows");
    assert_eq!(
        wrong_weight, 0,
        "{wrong_weight} state rows did not accumulate their second write"
    );
    for zset in &keys {
        assert_eq!(
            table.read_weight(131072, &vec![Value::Blob(zset.to_vec())], &None),
            2
        );
    }
}

/// The weights of equal rows add up where the row comes first; rows differ by row id as by values.
#[test]
fn weights_of_equal_rows_add_up() {
    let row = |id: i64, n: i64| HashableRow::new(id, vec![integer(n)]);
    let mut d = Delta::new();
    for (id, n, w) in [
        (1, 7, 2),
        (2, 7, 1),
        (1, 8, 1),
        (1, 7, 3),
        (2, 7, -1),
        (1, 8, -3),
        (2, 7, 0),
        (3, 7, 1),
    ] {
        d.push(row(id, n), w);
    }
    d.consolidate();
    assert_eq!(d.changes, vec![(row(1, 7), 5), (row(1, 8), -2), (row(3, 7), 1)]);

    let mut many = Delta::new();
    for round in 0..3 {
        for id in 0..5000 {
            many.push(row(id, id % 7), if round == 2 && id % 2 == 0 { -2 } else { 1 });
        }
    }
    many.consolidate();
    let expected: Vec<(HashableRow, isize)> =
        (0..5000).filter(|id| id % 2 == 1).map(|id| (row(id, id % 7), 3)).collect();
    assert_eq!(many.changes, expected);
}

#[test]
fn an_entry_without_weight_is_dropped() {
    let mut table = StateTable::new();
    let key = vec![integer(1)];
    let row = Some(HashableRow::new(7, vec![integer(7)]));
    table.write_row(5, &key, &row, 2);
    assert_eq!(table.read_weight(5, &key, &row), 2);
    assert_eq!(table.read_weight(5, &key, &None), 0);
    let scanned = table.next_row(5, &key, 0).unwrap();
    assert_eq!((scanned.row.rowid, scanned.weight), (7, 2));
    assert!(table.next_row(5, &key, scanned.next).is_none());
    table.write_row(5, &key, &row, -2);
    assert_eq!(table.entries.len(), 0);
}

#[test]
fn storage_ids_are_distinct() {
    let ids = vec![
        generate_storage_id(1, 0, 3),
        generate_storage_id(1, 1, 3),
        generate_storage_id(1, 0, 1),
        generate_storage_id(2, 0, 3),
    ];
    for (i, a) in ids.iter().enumerate() {
        for b in &ids[i + 1..] {
            assert_ne!(a, b);
        }
    }
}

// Rows of a view.

/// Writes a row of a table, and gives what is stored afterwards.
fn write(stored: Option<Vec<Value>>, values: Vec<Value>, weight: isize) -> Option<Vec<Value>> {
    let mut machine = WriteRowView::new();
    let mut at = stored;
    let mut event = RowEvent::Resume;
    loop {
        match machine.write_row(event, 1, &values, weight).unwrap() {
            RowAction::Seek => {
                event = RowEvent::Sought(match at {
                    Some(_) => SeekResult::Found,
                    None => SeekResult::NotFound,
                })
            }
            RowAction::ReadRecord => event = RowEvent::Record(at.clone()),
            RowAction::Delete => {
                at = None;
                event = RowEvent::Deleted;
            }
            RowAction::Insert(record) => {
                at = Some(record);
                event = RowEvent::Inserted;
            }
            RowAction::Done => return at,
            other => panic!("{other:?}"),
        }
    }
}

#[test]
fn writing_a_row_adds_its_weight() {
    assert_eq!(write(None, vec![integer(5)], 1), Some(vec![integer(5), integer(1)]));
    assert_eq!(write(None, vec![integer(5)], -1), None);
    assert_eq!(
        write(Some(vec![integer(5), integer(1)]), vec![integer(5)], 2),
        Some(vec![integer(5), integer(3)])
    );
    assert_eq!(write(Some(vec![integer(5), integer(1)]), vec![integer(5)], -1), None);
    assert_eq!(
        write(Some(vec![integer(5), integer(2)]), vec![integer(5)], -1),
        Some(vec![integer(5), integer(1)])
    );
}

#[test]
fn a_row_without_a_weight_is_refused() {
    for (record, message) in [
        (Some(vec![]), "No weight value found in storage for key TableRowId(1)"),
        (
            Some(vec![Value::Null]),
            "Invalid weight value in storage for key TableRowId(1)",
        ),
        (None, "Found key TableRowId(1) in storage but could not read record"),
    ] {
        let mut machine = WriteRowView::new();
        machine.write_row(RowEvent::Resume, 1, &vec![], 1).unwrap();
        machine.write_row(RowEvent::Sought(SeekResult::Found), 1, &vec![], 1).unwrap();
        match machine.write_row(RowEvent::Record(record), 1, &vec![], 1) {
            Err(LimboError::InternalError(m)) => assert_eq!(m, message),
            other => panic!("{other:?}"),
        }
        assert_eq!(machine, WriteRowView::GetRecord);
    }
}

/// A search of an index that ends between two leaves is taken up again from the next entry.
#[test]
fn an_index_entry_in_the_next_leaf_is_found() {
    let full = vec![integer(20), integer(2), integer(1)];
    let mut machine = WriteRowViewIndex::new();
    let mut event = RowEvent::Resume;
    let mut advanced = false;
    let inserted = loop {
        match machine.write_row(event, &full, 1).unwrap() {
            RowAction::Seek => {
                event = RowEvent::Sought(if advanced {
                    SeekResult::Found
                } else {
                    SeekResult::TryAdvance
                })
            }
            RowAction::Advance => {
                advanced = true;
                event = RowEvent::Advanced { at_row: true };
            }
            RowAction::ReadRecord => event = RowEvent::Record(Some(full.clone())),
            RowAction::Insert(record) => break record,
            other => panic!("{other:?}"),
        }
    };
    assert_eq!(inserted, vec![integer(20), integer(2), integer(2)]);
}

/// A search that ends behind the last entry has found nothing.
#[test]
fn an_index_entry_behind_the_last_is_missing() {
    for (weight, expected) in [(1, true), (-1, false)] {
        let full = vec![integer(20), integer(2), integer(weight as i64)];
        let mut machine = WriteRowViewIndex::new();
        machine.write_row(RowEvent::Resume, &full, weight).unwrap();
        machine.write_row(RowEvent::Sought(SeekResult::TryAdvance), &full, weight).unwrap();
        let action =
            machine.write_row(RowEvent::Advanced { at_row: false }, &full, weight).unwrap();
        assert_eq!(matches!(action, RowAction::Insert(_)), expected);
        assert_eq!(matches!(action, RowAction::Done), !expected);
    }
}

#[test]
fn an_index_record_that_cannot_be_read_is_refused() {
    let full = vec![integer(20), integer(2), integer(1)];
    let mut machine = WriteRowViewIndex::new();
    machine.write_row(RowEvent::Resume, &full, 1).unwrap();
    machine.write_row(RowEvent::Sought(SeekResult::Found), &full, 1).unwrap();
    match machine.write_row(RowEvent::Record(None), &full, 1) {
        Err(LimboError::InternalError(m)) => {
            assert_eq!(m, "Found composite key in storage but could not read record")
        }
        other => panic!("{other:?}"),
    }
    assert!(matches!(machine, WriteRowViewIndex::GetRecord { .. }));
}

fn by_second() -> MatviewOrderBy {
    MatviewOrderBy {
        columns: vec![SortColumn { column: 1, order: SortOrder::Asc, nulls: None }],
    }
}

/// What is stored of a row in an index stands for that row.
#[test]
fn an_index_row_reads_back() {
    let values = vec![integer(10), integer(20), integer(30)];
    let (seek, full) = build_composite_keys(&values, 7, 4, &by_second().columns, 2);
    assert_eq!(seek, vec![integer(20), integer(7)]);
    assert_eq!(full, vec![integer(20), integer(7), integer(10), integer(30), integer(2)]);
    assert_eq!(read_view_row(0, &full, &by_second()), Ok((7, values.clone())));
    let (row, weight) = read_view_entry(&full, None, &by_second()).unwrap();
    assert_eq!((row.rowid, row.values, weight), (7, values, 2));
}

#[test]
fn a_table_row_reads_back() {
    let unordered = MatviewOrderBy { columns: vec![] };
    let record = vec![integer(10), integer(20), integer(3)];
    assert_eq!(read_view_row(7, &record, &unordered), Ok((7, vec![integer(10), integer(20)])));
    let (row, weight) = read_view_entry(&record, Some(7), &unordered).unwrap();
    assert_eq!((row.rowid, row.values, weight), (7, vec![integer(10), integer(20)], 3));
}

#[test]
fn rows_that_make_no_sense_are_refused() {
    let unordered = MatviewOrderBy { columns: vec![] };
    let refused = |record: Vec<Value>, rowid: Option<i64>, order: &MatviewOrderBy| {
        match read_view_entry(&record, rowid, order) {
            Err(e) => e.message(),
            Ok(other) => panic!("{other:?}"),
        }
    };
    let prefix = "Invalid data in materialized view: ";
    assert_eq!(refused(vec![], Some(1), &unordered), format!("{prefix}no weight column found"));
    assert_eq!(
        refused(vec![Value::Null], Some(1), &unordered),
        format!("{prefix}expected integer weight, found Null")
    );
    assert_eq!(
        refused(vec![integer(0)], Some(1), &unordered),
        format!("{prefix}expected a positive weight, found 0")
    );
    assert_eq!(
        refused(vec![integer(1)], None, &unordered),
        format!("{prefix}found a record, but no rowid!")
    );
    assert!(refused(vec![integer(1)], None, &by_second()).starts_with(prefix));
    assert!(refused(vec![integer(5), Value::Null, integer(1)], None, &by_second())
        .contains("expected integer rowid"));
    match read_view_row(0, &vec![integer(5), Value::Null, integer(1)], &by_second()) {
        Err(e) => assert!(e.message().contains("expected integer rowid")),
        Ok(other) => panic!("{other:?}"),
    }
}

// The state of an antijoin.

/// Drives a probe against a count that may be stored, and where a search may end between leaves.
fn probe(stored: Option<i64>, between: bool, neighbour: Option<Vec<Value>>) -> i64 {
    let key = vec![1u8; 16];
    let entry = CountProbe::index_key(9, &key);
    let mut machine = CountProbe::new(true);
    let mut event = ProbeEvent::Resume;
    loop {
        match machine.read_r_count(event, 9, &key).unwrap() {
            ProbeAction::SeekIndex => {
                event = ProbeEvent::Sought(if between {
                    SeekResult::TryAdvance
                } else if stored.is_some() {
                    SeekResult::Found
                } else {
                    SeekResult::NotFound
                })
            }
            ProbeAction::NextIndex => {
                event = ProbeEvent::Moved { has_record: stored.is_some() || neighbour.is_some() }
            }
            ProbeAction::ReadIndex => {
                event = ProbeEvent::Record(match stored {
                    Some(_) => Some(entry.clone()),
                    None => neighbour.clone(),
                })
            }
            ProbeAction::ReadRowid => event = ProbeEvent::Rowid(Some(3)),
            ProbeAction::SeekTable { rowid } => {
                assert_eq!(rowid, 3);
                event = ProbeEvent::Fetched;
            }
            ProbeAction::ReadTable => {
                let mut row = entry.clone();
                row.push(Value::Null);
                row.push(integer(stored.unwrap()));
                event = ProbeEvent::Record(Some(row));
            }
            ProbeAction::Done { count } => return count,
        }
    }
}

#[test]
fn a_probe_finds_the_count_wherever_the_search_ends() {
    assert_eq!(probe(Some(4), false, None), 4);
    assert_eq!(probe(Some(4), true, None), 4);
    assert_eq!(probe(None, false, None), 0);
    assert_eq!(probe(None, true, None), 0);
    let other = CountProbe::index_key(9, &vec![2u8; 16]);
    assert_eq!(probe(None, true, Some(other)), 0);
    let elsewhere = CountProbe::index_key(8, &vec![1u8; 16]);
    assert_eq!(probe(None, true, Some(elsewhere)), 0);
}

/// An index whose entries are spread over leaves. A search for the first entry of a leaf ends behind
/// the last one of the leaf before it.
struct Leaves {
    entries: Vec<([u8; 16], i64)>,
    at: usize,
    advanced: usize,
}

impl Leaves {
    const LEAF: usize = 20;

    fn count(&mut self, key: &[u8; 16]) -> i64 {
        let mut machine = CountProbe::new(true);
        let mut event = ProbeEvent::Resume;
        loop {
            match machine.read_r_count(event, 131072, &key.to_vec()).unwrap() {
                ProbeAction::SeekIndex => {
                    self.at = self.entries.iter().filter(|(k, _)| k < key).count();
                    event = ProbeEvent::Sought(if self.at > 0 && self.at % Self::LEAF == 0 {
                        SeekResult::TryAdvance
                    } else if self.entries.get(self.at).is_some_and(|(k, _)| k == key) {
                        SeekResult::Found
                    } else {
                        SeekResult::NotFound
                    });
                }
                ProbeAction::NextIndex => {
                    self.advanced += 1;
                    event = ProbeEvent::Moved { has_record: self.at < self.entries.len() };
                }
                ProbeAction::ReadIndex => {
                    event = ProbeEvent::Record(
                        self.entries
                            .get(self.at)
                            .map(|(k, _)| CountProbe::index_key(131072, &k.to_vec())),
                    )
                }
                ProbeAction::ReadRowid => event = ProbeEvent::Rowid(Some(self.at as i64)),
                ProbeAction::SeekTable { rowid } => {
                    assert_eq!(rowid, self.at as i64);
                    event = ProbeEvent::Fetched;
                }
                ProbeAction::ReadTable => {
                    let (k, weight) = &self.entries[self.at];
                    let mut row = CountProbe::index_key(131072, &k.to_vec());
                    row.push(Value::Null);
                    row.push(integer(*weight));
                    event = ProbeEvent::Record(Some(row));
                }
                ProbeAction::Done { count } => return count,
            }
        }
    }
}

/// Every key is found, also where the search for it ends between two leaves; a key that is not there
/// is not found in its neighbour.
#[test]
fn every_key_is_found_across_the_leaves() {
    let mut present = keys(400);
    present.sort();
    let entries: Vec<([u8; 16], i64)> =
        present.iter().enumerate().map(|(i, k)| (*k, i as i64 + 1)).collect();
    let mut leaves = Leaves { entries, at: 0, advanced: 0 };
    for (i, key) in present.iter().enumerate() {
        assert_eq!(leaves.count(key), i as i64 + 1);
    }
    assert_eq!(leaves.advanced, 400 / Leaves::LEAF - 1);
    for key in &present {
        let mut below = *key;
        below[15] = below[15].wrapping_sub(1);
        if !present.contains(&below) {
            assert_eq!(leaves.count(&below), 0);
        }
    }
    assert_eq!(leaves.count(&[0xff; 16]), 0);
}

#[test]
fn an_operator_without_storage_has_counted_nothing() {
    let mut machine = CountProbe::new(false);
    assert_eq!(
        machine.read_r_count(ProbeEvent::Resume, 9, &vec![]),
        Ok(ProbeAction::Done { count: 0 })
    );
}

#[test]
fn a_row_without_a_weight_is_reported() {
    let mut machine = CountProbe::Reading { rowid: 3 };
    assert_eq!(
        machine.read_r_count(ProbeEvent::Record(Some(vec![integer(9)])), 9, &vec![]),
        Err(LimboError::Corrupt("a row of the state table has no weight".to_string()))
    );
    assert_eq!(machine, CountProbe::Reading { rowid: 3 });
}

#[test]
fn the_index_key_ends_in_zeros() {
    assert_eq!(
        CountProbe::index_key(9, &vec![7]),
        vec![integer(9), Value::Blob(vec![7]), Value::Blob(vec![0; 16])]
    );
}

#[test]
fn left_rows_read_back() {
    let row = HashableRow::new(-3, vec![Value::Null, Value::Text("x".to_string())]);
    let stored = serialize_l_row(&row);
    assert_eq!(stored, vec![integer(-3), Value::Null, Value::Text("x".to_string())]);
    assert_eq!(deserialize_l_row(&stored), Ok(row));
    assert_eq!(
        deserialize_l_row(&vec![]),
        Err(LimboError::InternalError("L row blob must contain at least rowid".to_string()))
    );
    assert_eq!(
        deserialize_l_row(&vec![Value::Null]),
        Err(LimboError::InternalError("First value must be rowid (integer)".to_string()))
    );
}

#[test]
fn all_rows_are_read_back_or_the_first_that_cannot_is_named() {
    let (_, first) = build_composite_keys(
        &vec![integer(1), integer(2)],
        5,
        3,
        &by_second().columns,
        1,
    );
    let stored = vec![(0, first.clone())];
    assert_eq!(
        read_btree_rows(&stored, &by_second()),
        Ok(vec![(5, vec![integer(1), integer(2)])])
    );
    let broken = vec![
        (0, first),
        (0, vec![integer(2), Value::Null, integer(1)]),
        (0, vec![integer(2), Value::Text("x".to_string()), integer(1)]),
    ];
    assert_eq!(
        read_btree_rows(&broken, &by_second()),
        Err(LimboError::InternalError(
            "expected integer rowid in matview index record at position 1, found Null".to_string()
        ))
    );
}
